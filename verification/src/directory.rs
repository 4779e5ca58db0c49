//! The rooms of a server, by ID.

use vstd::prelude::*;
use vstd::string::StringExecFns;
use crate::protocol::{room_id_problem, validate_room_id, BlindConfig, ServerMessageView};
use crate::room::{outbound_views, Disconnected, JoinError, Joined, Outbound, OutboundView, RejoinError, Room, RoomView};
use std::time::Instant;
use crate::text::{parse_token_text, token_from_text};

verus! {

/// The rooms of a server. No two rooms have the same ID.
pub struct RoomDirectory {
    pub ids: Vec<String>,
    pub rooms: Vec<Room>,
}

/// Why a room could not be created, joined or rejoined.
#[derive(Debug, Clone, Copy, PartialEq, Eq, Structural)]
pub enum RoomError {
    /// The room ID is empty.
    EmptyId,
    /// The room ID has 20 bytes or more.
    LongId,
    /// The room ID holds a character that is no digit and no ASCII letter.
    BadId,
    /// A room with this ID exists already.
    Exists,
    /// No room has this ID.
    NotFound,
    /// The game runs and late entry is off.
    GameInProgress,
    /// The session token is unknown.
    InvalidToken,
    /// The session's player has left the table for good.
    SessionExpired,
}

/// What follows where the reaper took a player away.
#[derive(Debug)]
pub struct Reaped {
    /// What everybody who is connected is told.
    pub left: Outbound,
    /// Nobody is connected any more, and the room has gone.
    pub room_empty: bool,
}

impl RoomDirectory {
    /// The IDs of the rooms, in the order in which they were created.
    pub open spec fn room_ids(self) -> Seq<Seq<char>> {
        Seq::new(self.ids@.len(), |i: int| self.ids@[i]@)
    }

    /// The rooms, in the order in which they were created.
    pub open spec fn room_views(self) -> Seq<RoomView> {
        Seq::new(self.rooms@.len(), |i: int| self.rooms@[i]@)
    }

    /// Every room has an ID, and no ID is taken twice.
    pub open spec fn wf(self) -> bool {
        self.ids@.len() == self.rooms@.len() && self.room_ids().no_duplicates()
    }

    /// Every room is in order: nobody is connected twice, and the seats
    /// of its table are in order.
    pub open spec fn rooms_wf(self) -> bool {
        forall|i: int| 0 <= i < self.rooms@.len() ==> (#[trigger] self.rooms@[i])@.wf()
    }

    /// Whether a room has the ID `id`.
    pub open spec fn has_room(self, id: Seq<char>) -> bool {
        self.room_ids().contains(id)
    }

    /// The position of the room with the ID `id`.
    pub open spec fn position(self, id: Seq<char>) -> int {
        self.room_ids().index_of(id)
    }

    /// The room with the ID `id`.
    pub open spec fn room(self, id: Seq<char>) -> RoomView {
        self.room_views()[self.position(id)]
    }

    /// A directory without rooms.
    pub fn new() -> (d: RoomDirectory)
        ensures
            d.wf(),
            d.rooms_wf(),
            d.room_ids() == Seq::<Seq<char>>::empty(),
    {
        let d = RoomDirectory { ids: Vec::new(), rooms: Vec::new() };
        assert(d.room_ids() =~= Seq::<Seq<char>>::empty());
        d
    }

    /// Whether every room has an ID and no ID is taken twice.
    pub fn is_wf(&self) -> (b: bool)
        ensures
            b == self.wf(),
    {
        if self.ids.len() != self.rooms.len() {
            return false;
        }
        let mut i: usize = 0;
        while i < self.ids.len()
            invariant
                i <= self.ids.len(),
                forall|a: int, b: int| 0 <= a < b < i ==> self.room_ids()[a] != self.room_ids()[b],
            decreases self.ids.len() - i,
        {
            let mut j: usize = 0;
            while j < i
                invariant
                    j <= i,
                    i < self.ids.len(),
                    forall|a: int| 0 <= a < j ==> self.room_ids()[a] != self.room_ids()[i as int],
                decreases i - j,
            {
                if self.ids[j] == self.ids[i] {
                    proof {
                        assert(self.room_ids()[j as int] == self.room_ids()[i as int]);
                    }
                    return false;
                }
                j = j + 1;
            }
            i = i + 1;
        }
        true
    }

    /// Finds the room with the ID `id`.
    pub fn find(&self, id: &str) -> (at: Option<usize>)
        requires
            self.wf(),
        ensures
            match at {
                Some(i) => self.has_room(id@) && i == self.position(id@) && i < self.rooms@.len(),
                None => !self.has_room(id@),
            },
    {
        let wanted = String::from_str(id);
        let mut i: usize = 0;
        while i < self.ids.len()
            invariant
                i <= self.ids.len(),
                wanted@ == id@,
                self.wf(),
                forall|k: int| 0 <= k < i ==> self.room_ids()[k] != id@,
            decreases self.ids.len() - i,
        {
            if self.ids[i] == wanted {
                proof {
                    assert(self.room_ids()[i as int] == id@);
                    assert(self.room_ids().contains(id@));
                    self.room_ids().index_of_first_ensures(id@);
                    let j = self.room_ids().index_of(id@);
                    if j != i {
                        assert(self.room_ids()[j] == self.room_ids()[i as int]);
                    }
                }
                return Some(i);
            }
            i = i + 1;
        }
        None
    }

    /// The IDs of the rooms.
    pub fn list_rooms(&self) -> (ids: Vec<String>)
        ensures
            ids@.len() == self.ids@.len(),
            forall|i: int| 0 <= i < ids@.len() ==> (#[trigger] ids@[i])@ == self.ids@[i]@,
    {
        let mut ids: Vec<String> = Vec::new();
        let mut i: usize = 0;
        while i < self.ids.len()
            invariant
                i <= self.ids.len(),
                ids@.len() == i,
                forall|k: int| 0 <= k < i ==> (#[trigger] ids@[k])@ == self.ids@[k]@,
            decreases self.ids.len() - i,
        {
            ids.push(self.ids[i].clone());
            i = i + 1;
        }
        ids
    }

    /// Why no room can be created under `id`, or nothing where one can.
    pub open spec fn create_error(self, id: Seq<char>) -> Option<RoomError> {
        if id.len() == 0 {
            Some(RoomError::EmptyId)
        } else if vstd::utf8::encode_utf8(id).len() >= 20 {
            Some(RoomError::LongId)
        } else if room_id_problem(id) is Some {
            Some(RoomError::BadId)
        } else if self.has_room(id) {
            Some(RoomError::Exists)
        } else {
            None
        }
    }

    /// Creates an empty room under `room_id`.
    pub fn create_room(&mut self, room_id: &str, blind_config: BlindConfig, starting_bbs: u32) -> (r: Result<
        (),
        RoomError,
    >)
        requires
            old(self).wf(),
        ensures
            final(self).wf(),
            match r {
                Ok(()) => {
                    &&& old(self).create_error(room_id@) is None
                    &&& final(self).room_ids() == old(self).room_ids().push(room_id@)
                    &&& final(self).rooms@.len() == old(self).rooms@.len() + 1
                    &&& forall|i: int| 0 <= i < old(self).rooms@.len() ==> final(self).rooms@[i] == old(self).rooms@[i]
                    &&& final(self).rooms@.last()@ == RoomView::fresh(blind_config, starting_bbs)
                },
                Err(e) => old(self).create_error(room_id@) == Some(e) && *final(self) == *old(self),
            },
            old(self).rooms_wf() ==> final(self).rooms_wf(),
    {
        if room_id.is_empty() {
            return Err(RoomError::EmptyId);
        }
        if room_id.as_bytes().len() >= 20 {
            return Err(RoomError::LongId);
        }
        match validate_room_id(room_id) {
            Err(_) => {
                return Err(RoomError::BadId);
            },
            Ok(()) => {},
        }
        match self.find(room_id) {
            Some(_) => {
                return Err(RoomError::Exists);
            },
            None => {},
        }
        self.ids.push(String::from_str(room_id));
        self.rooms.push(Room::new(blind_config, starting_bbs));
        proof {
            assert(self.room_ids() =~= old(self).room_ids().push(room_id@));
        }
        Ok(())
    }
}

impl RoomDirectory {
    /// The directory differs from `before` in the room at position `at`
    /// alone, which is now `room`.
    pub open spec fn changed_at(self, before: RoomDirectory, at: int, room: RoomView) -> bool {
        &&& self.ids == before.ids
        &&& self.rooms@.len() == before.rooms@.len()
        &&& self.rooms@[at]@ == room
        &&& forall|k: int| 0 <= k < before.rooms@.len() && k != at ==> self.rooms@[k] == before.rooms@[k]
    }

    /// The directory is `before` without the room at position `at`.
    pub open spec fn removed_at(self, before: RoomDirectory, at: int) -> bool {
        &&& self.ids@ == before.ids@.remove(at)
        &&& self.rooms@ == before.rooms@.remove(at)
    }

    /// Why nobody can join the room `id` now, or nothing where one can.
    pub open spec fn join_error(self, id: Seq<char>) -> Option<RoomError> {
        if !self.has_room(id) {
            Some(RoomError::NotFound)
        } else if self.room(id).join_error() is Some {
            Some(RoomError::GameInProgress)
        } else {
            None
        }
    }

    /// Lets a player join the room `room_id` under `name`.
    pub fn join_room(&mut self, room_id: &str, name: String) -> (r: Result<Joined, RoomError>)
        requires
            old(self).wf(),
            old(self).has_room(room_id@) ==> old(self).room(room_id@).can_join(),
        ensures
            final(self).wf(),
            match r {
                Ok(joined) => {
                    let room = old(self).room(room_id@);
                    &&& old(self).join_error(room_id@) is None
                    &&& final(self).changed_at(
                        *old(self),
                        old(self).position(room_id@),
                        room.after_join(name, joined.session_token),
                    )
                    &&& joined.player_id == room.game.next_player_id
                    &&& joined.player_count == room.after_join(name, joined.session_token).game.players.len()
                    &&& joined.notice@ == room.after_join(name, joined.session_token).to_others(
                        joined.player_id,
                        ServerMessageView::PlayerJoined { player_id: joined.player_id, name: name@ },
                    )
                },
                Err(e) => old(self).join_error(room_id@) == Some(e) && *final(self) == *old(self),
            },
            old(self).rooms_wf() ==> final(self).rooms_wf(),
    {
        let at: usize = match self.find(room_id) {
            Some(i) => i,
            None => {
                return Err(RoomError::NotFound);
            },
        };
        proof {
            assert(self.room_views()[at as int] == self.rooms@[at as int]@);
        }
        if self.rooms[at].game_state.game_started && !self.rooms[at].game_state.allow_late_entry {
            return Err(RoomError::GameInProgress);
        }
        let joined = self.rooms[at].join(name);
        proof {
            assert(self.room_ids() =~= old(self).room_ids());
        }
        match joined {
            Ok(j) => Ok(j),
            Err(_) => Err(RoomError::GameInProgress),
        }
    }

    /// Why the session `token` cannot be taken up again in the room `id`,
    /// or nothing where it can.
    pub open spec fn rejoin_error(self, id: Seq<char>, token: Seq<char>) -> Option<RoomError> {
        if !self.has_room(id) {
            Some(RoomError::NotFound)
        } else {
            match parse_token_text(token) {
                None => Some(RoomError::InvalidToken),
                Some(t) => match self.room(id).rejoin_error(t) {
                    Some(RejoinError::InvalidToken) => Some(RoomError::InvalidToken),
                    Some(RejoinError::SessionExpired) => Some(RoomError::SessionExpired),
                    None => None,
                },
            }
        }
    }

    /// Lets a player come back to the room `room_id` with the session
    /// token that was issued when they joined.
    pub fn rejoin_room(&mut self, room_id: &str, session_token: &str) -> (r: Result<u32, RoomError>)
        requires
            old(self).wf(),
        ensures
            final(self).wf(),
            match r {
                Ok(player_id) => old(self).rejoin_error(room_id@, session_token@) is None && player_id == old(
                    self,
                ).room(room_id@).sessions[parse_token_text(session_token@)->Some_0],
                Err(e) => old(self).rejoin_error(room_id@, session_token@) == Some(e),
            },
            !old(self).has_room(room_id@) || parse_token_text(session_token@) is None ==> *final(self) == *old(self),
            old(self).has_room(room_id@) && parse_token_text(session_token@) is Some ==> final(self).changed_at(
                *old(self),
                old(self).position(room_id@),
                old(self).room(room_id@).after_rejoin(parse_token_text(session_token@)->Some_0),
            ),
            old(self).rooms_wf() ==> final(self).rooms_wf(),
    {
        let at: usize = match self.find(room_id) {
            Some(i) => i,
            None => {
                return Err(RoomError::NotFound);
            },
        };
        proof {
            assert(self.room_views()[at as int] == self.rooms@[at as int]@);
        }
        let token: u128 = match token_from_text(session_token) {
            Some(t) => t,
            None => {
                return Err(RoomError::InvalidToken);
            },
        };
        let r = self.rooms[at].rejoin(token);
        proof {
            assert(self.room_ids() =~= old(self).room_ids());
        }
        match r {
            Ok(id) => Ok(id),
            Err(RejoinError::InvalidToken) => Err(RoomError::InvalidToken),
            Err(RejoinError::SessionExpired) => Err(RoomError::SessionExpired),
        }
    }

    /// Takes the room at position `at` out of the directory.
    fn remove_at(&mut self, at: usize)
        requires
            old(self).wf(),
            at < old(self).rooms@.len(),
        ensures
            final(self).wf(),
            final(self).removed_at(*old(self), at as int),
            final(self).room_ids() == old(self).room_ids().remove(at as int),
            !final(self).has_room(old(self).room_ids()[at as int]),
    {
        self.ids.remove(at);
        self.rooms.remove(at);
        proof {
            let before = old(self).room_ids();
            let after = self.room_ids();
            assert(after =~= before.remove(at as int));
            assert forall|i: int, j: int| 0 <= i < after.len() && 0 <= j < after.len() && i != j implies after[i]
                != after[j] by {
                let a = if i < at {
                    i
                } else {
                    i + 1
                };
                let b = if j < at {
                    j
                } else {
                    j + 1
                };
                assert(after[i] == before[a]);
                assert(after[j] == before[b]);
            }
            assert(!after.contains(before[at as int])) by {
                if after.contains(before[at as int]) {
                    let i = choose|i: int| 0 <= i < after.len() && after[i] == before[at as int];
                    let a = if i < at {
                        i
                    } else {
                        i + 1
                    };
                    assert(after[i] == before[a]);
                }
            }
        }
    }

    /// Handles the loss of the connection of `player_id` in the room
    /// `room_id`. A room that nobody is connected to any more, and whose
    /// game does not hold the player's seat, is taken out of the
    /// directory. Nothing happens where no room has the ID.
    pub fn disconnect_player(&mut self, room_id: &str, player_id: u32) -> (r: Option<Disconnected>)
        requires
            old(self).wf(),
        ensures
            final(self).wf(),
            match r {
                None => !old(self).has_room(room_id@) && *final(self) == *old(self),
                Some(d) => {
                    let room = old(self).room(room_id@);
                    let at = old(self).position(room_id@);
                    &&& old(self).has_room(room_id@)
                    &&& outbound_views(d.outbound@) == room.disconnect_messages(player_id)
                    &&& d.held == room.holds_seat(player_id)
                    &&& exists|now: Instant|
                        #![trigger room.after_disconnect(player_id, now)]
                        {
                            &&& d.room_empty == (!d.held && room.after_disconnect(player_id, now).connected.len() == 0)
                            &&& if d.room_empty {
                                final(self).removed_at(*old(self), at) && !final(self).has_room(room_id@)
                            } else {
                                final(self).changed_at(*old(self), at, room.after_disconnect(player_id, now))
                            }
                        }
                },
            },
            old(self).rooms_wf() ==> final(self).rooms_wf(),
    {
        let at: usize = match self.find(room_id) {
            Some(i) => i,
            None => {
                return None;
            },
        };
        proof {
            assert(self.room_views()[at as int] == self.rooms@[at as int]@);
            assert(self.room_ids()[at as int] == room_id@);
        }
        let d = self.rooms[at].disconnect(player_id);
        proof {
            assert(self.room_ids() =~= old(self).room_ids());
        }
        let ghost mid = *self;
        if d.room_empty {
            self.remove_at(at);
            proof {
                assert(mid.ids@ == old(self).ids@);
                assert(self.rooms@ =~= old(self).rooms@.remove(at as int));
            }
        }
        Some(d)
    }

    /// Looks at a disconnected player of the room `room_id` when their
    /// grace period should be over, and takes them away for good if it is.
    /// A room that nobody is connected to once the player is gone is taken
    /// out of the directory.
    pub fn reap_player(&mut self, room_id: &str, player_id: u32) -> (out: Option<Reaped>)
        requires
            old(self).wf(),
        ensures
            final(self).wf(),
            !old(self).has_room(room_id@) ==> out is None && *final(self) == *old(self),
            old(self).has_room(room_id@) ==> exists|elapsed: Option<u64>|
                #![trigger old(self).room(room_id@).after_reap(player_id, elapsed)]
                {
                    let room = old(self).room(room_id@);
                    let at = old(self).position(room_id@);
                    let after = room.after_reap(player_id, elapsed);
                    &&& elapsed is Some <==> room.disconnected_at.contains_key(player_id)
                    &&& match out {
                        Some(r) => {
                            &&& room.grace_over(player_id, elapsed)
                            &&& r.left@ == after.to_all(ServerMessageView::PlayerLeft { player_id })
                            &&& r.room_empty == (after.connected.len() == 0)
                            &&& if r.room_empty {
                                final(self).removed_at(*old(self), at) && !final(self).has_room(room_id@)
                            } else {
                                final(self).changed_at(*old(self), at, after)
                            }
                        },
                        None => !room.grace_over(player_id, elapsed) && final(self).changed_at(*old(self), at, after),
                    }
                },
            old(self).rooms_wf() ==> final(self).rooms_wf(),
    {
        let at: usize = match self.find(room_id) {
            Some(i) => i,
            None => {
                return None;
            },
        };
        proof {
            assert(self.room_views()[at as int] == self.rooms@[at as int]@);
            assert(self.room_ids()[at as int] == room_id@);
        }
        let left = match self.rooms[at].reap(player_id) {
            Some(o) => o,
            None => {
                proof {
                    assert(self.room_ids() =~= old(self).room_ids());
                }
                return None;
            },
        };
        proof {
            assert(self.room_ids() =~= old(self).room_ids());
        }
        let room_empty = self.rooms[at].is_empty();
        let ghost mid = *self;
        if room_empty {
            self.remove_at(at);
            proof {
                assert(mid.ids@ == old(self).ids@);
                assert(self.rooms@ =~= old(self).rooms@.remove(at as int));
            }
        }
        Some(Reaped { left, room_empty })
    }
}

/// When the last connected player of a room whose game has not started
/// disconnects, the room is empty and leaves the directory at once.
pub proof fn lemma_empty_room_goes(room: RoomView, player_id: u32, now: Instant)
    requires
        !room.game.game_started,
        forall|i: int| 0 <= i < room.connected.len() ==> room.connected[i] == player_id,
    ensures
        !room.holds_seat(player_id),
        room.after_disconnect(player_id, now).connected.len() == 0,
{
    crate::room::lemma_last_disconnect_empties(room, player_id, now);
}

} // verus!
