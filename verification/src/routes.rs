//! What stands between a connection and a room: the checks on a client's
//! name and on the room's name, the size limit on messages, and the
//! server's public information.

use vstd::prelude::*;
use crate::messages::{only, Effect, EffectView, Games, CLOSE_ERROR};
use crate::outside::table_names;
use crate::room::{Params, Room};
use crate::state::{AppState, ROOM_CAPACITY};
use crate::text::{byte_len, byte_length, chars_of};

verus! {

/// Longest name of a client, in bytes.
pub const MAX_USERNAME: usize = 12;

/// Longest name of a room, in bytes.
pub const MAX_ROOM_NAME: usize = 6;

/// Longest message that is looked at, in bytes.
pub const MAX_MESSAGE: usize = 500;

/// An ASCII letter or digit.
pub open spec fn is_alphanumeric(c: char) -> bool {
    ('0' <= c && c <= '9') || ('a' <= c && c <= 'z') || ('A' <= c && c <= 'Z')
}

/// Every character is an ASCII letter or digit.
pub open spec fn all_alphanumeric(s: Seq<char>) -> bool {
    forall|i: int| 0 <= i < s.len() ==> is_alphanumeric(#[trigger] s[i])
}

/// Why a connection is refused, if it is. The checks come in this order:
/// the client's name is at most twelve bytes long and not empty; the room's
/// name is at most six bytes long, not empty, and made of ASCII letters and
/// digits; the room is not full.
pub open spec fn refusal(username: Seq<char>, room: Seq<char>, full: bool) -> Option<Seq<char>> {
    if byte_len(username) > MAX_USERNAME {
        Some("username too long (max 12 characters)"@)
    } else if username.len() == 0 {
        Some("username cannot be empty"@)
    } else if byte_len(room) > MAX_ROOM_NAME {
        Some("invalid room name, must be less than 6 characters"@)
    } else if room.len() == 0 {
        Some("invalid room name, cannot be empty"@)
    } else if !all_alphanumeric(room) {
        Some("invalid room name, must be alphanumeric"@)
    } else if full {
        Some("room full"@)
    } else {
        None
    }
}

/// Whether every character is an ASCII letter or digit.
pub fn is_alphanumeric_text(text: &str) -> (r: bool)
    ensures
        r == all_alphanumeric(text@),
{
    let chars = chars_of(text);
    let mut i: usize = 0;
    while i < chars.len()
        invariant
            i <= chars@.len(),
            chars@ == text@,
            forall|k: int| 0 <= k < i ==> is_alphanumeric(#[trigger] chars@[k]),
        decreases chars@.len() - i,
    {
        let c = chars[i];
        if !((c >= '0' && c <= '9') || (c >= 'a' && c <= 'z') || (c >= 'A' && c <= 'Z')) {
            return false;
        }
        i += 1;
    }
    true
}

/// Why a connection is refused, if it is.
pub fn check_connection(username: &str, room: &str, full: bool) -> (r: Option<&'static str>)
    ensures
        match r {
            Some(reason) => refusal(username@, room@, full) == Some(reason@),
            None => refusal(username@, room@, full) is None,
        },
{
    if byte_length(username) > MAX_USERNAME {
        Some("username too long (max 12 characters)")
    } else if username.is_empty() {
        Some("username cannot be empty")
    } else if byte_length(room) > MAX_ROOM_NAME {
        Some("invalid room name, must be less than 6 characters")
    } else if room.is_empty() {
        Some("invalid room name, cannot be empty")
    } else if !is_alphanumeric_text(room) {
        Some("invalid room name, must be alphanumeric")
    } else if full {
        Some("room full")
    } else {
        None
    }
}

/// Whether a message is short enough to be looked at.
pub fn frame_accepted(text: &str) -> (r: bool)
    ensures
        r == (byte_len(text@) <= MAX_MESSAGE),
{
    byte_length(text) <= MAX_MESSAGE
}

impl AppState {
    /// A connection asks to join a room. One that is refused is sent a close
    /// frame with the reason, and nothing changes; another joins.
    pub fn ws_handler(&mut self, room: &str, params: Params, socket_uuid: u128) -> (r: (
        Option<u128>,
        Vec<Effect>,
    ))
        requires
            old(self).wf(),
        ensures
            final(self).wf(),
            match refusal(
                params.username@,
                room@,
                old(self).has_room(room@) && old(self).entries()[room@].clients@.len()
                    >= ROOM_CAPACITY,
            ) {
                Some(reason) => r.0 is None && Self::unchanged(*old(self), *final(self))
                    && r.1.deep_view() == seq![
                    EffectView::Close { socket: socket_uuid, code: CLOSE_ERROR, reason },
                ],
                None => r.0 is Some && Self::joined(
                    *old(self),
                    *final(self),
                    room@,
                    params,
                    socket_uuid,
                    r.0->0,
                    r.1.deep_view(),
                ),
            },
    {
        let full = self.room_full(room);
        match check_connection(params.username.as_str(), room, full) {
            Some(reason) => (
                None,
                only(Effect::Close { socket: socket_uuid, code: CLOSE_ERROR, reason: reason.to_owned() }),
            ),
            None => {
                let joined = self.add_client(room, params, socket_uuid);
                (Some(joined.0), joined.1)
            },
        }
    }
}

/// What everybody may know of the server.
#[derive(Clone, Debug, PartialEq)]
pub struct ServerInfo {
    /// How many clients the rooms have, as far as a `usize` holds the number.
    pub clients_connected: usize,
    pub public_rooms: Vec<RoomData>,
}

/// What everybody may know of a public room.
#[derive(Clone, Debug, PartialEq)]
pub struct RoomData {
    pub name: String,
    /// The names of the room's clients.
    pub players: Vec<String>,
    pub game: Games,
}

pub struct RoomDataView {
    pub name: Seq<char>,
    pub players: Seq<Seq<char>>,
    pub game: Games,
}

impl DeepView for RoomData {
    type V = RoomDataView;

    open spec fn deep_view(&self) -> RoomDataView {
        RoomDataView { name: self.name@, players: self.players.deep_view(), game: self.game }
    }
}

/// The names of the room's clients, in order.
pub open spec fn usernames(room: Room) -> Seq<Seq<char>> {
    Seq::new(room.clients@.len(), |i: int| room.clients@[i].username@)
}

/// How many clients the named rooms have together.
pub open spec fn headcount(rooms: Map<Seq<char>, Room>, names: Seq<Seq<char>>) -> nat
    decreases names.len(),
{
    if names.len() == 0 {
        0
    } else {
        headcount(rooms, names.drop_last()) + rooms[names.last()].clients@.len()
    }
}

/// The public ones among the named rooms, in the order of the names.
pub open spec fn public_rooms(rooms: Map<Seq<char>, Room>, names: Seq<Seq<char>>) -> Seq<
    RoomDataView,
>
    decreases names.len(),
{
    if names.len() == 0 {
        Seq::empty()
    } else if rooms[names.last()].settings.public {
        public_rooms(rooms, names.drop_last()).push(
            RoomDataView {
                name: names.last(),
                players: usernames(rooms[names.last()]),
                game: rooms[names.last()].settings.game,
            },
        )
    } else {
        public_rooms(rooms, names.drop_last())
    }
}

/// The names are those of all the rooms, each once.
pub open spec fn lists_rooms(names: Seq<Seq<char>>, rooms: Map<Seq<char>, Room>) -> bool {
    names.no_duplicates() && names.to_set() == rooms.dom()
}

impl AppState {
    /// The server's public information: how many clients there are in all
    /// rooms, and the public rooms with their clients' names, in an order
    /// that is left open.
    pub fn info(&mut self) -> (r: ServerInfo)
        ensures
            Self::unchanged(*old(self), *final(self)),
            exists|names: Seq<Seq<char>>| #[trigger]
                lists_rooms(names, old(self).entries()) && r.public_rooms.deep_view()
                    == public_rooms(old(self).entries(), names) && r.clients_connected == if headcount(
                    old(self).entries(),
                    names,
                ) <= usize::MAX {
                    headcount(old(self).entries(), names) as usize
                } else {
                    usize::MAX
                },
    {
        let names = table_names(&self.rooms);
        let ghost all = names.deep_view();
        let ghost rooms = self.entries();
        let mut clients_connected: usize = 0;
        let mut listed: Vec<RoomData> = Vec::new();
        let mut i: usize = 0;
        assert(all.subrange(0, 0) =~= Seq::<Seq<char>>::empty());
        assert(listed.deep_view() =~= Seq::<RoomDataView>::empty());
        while i < names.len()
            invariant
                i <= names@.len(),
                all == names.deep_view(),
                lists_rooms(all, rooms),
                Self::unchanged(*old(self), *self),
                rooms == old(self).entries(),
                listed.deep_view() == public_rooms(rooms, all.subrange(0, i as int)),
                clients_connected == if headcount(rooms, all.subrange(0, i as int)) <= usize::MAX {
                    headcount(rooms, all.subrange(0, i as int)) as usize
                } else {
                    usize::MAX
                },
            decreases names@.len() - i,
        {
            assert(all.subrange(0, i + 1).drop_last() =~= all.subrange(0, i as int));
            assert(all.subrange(0, i + 1).last() == names@[i as int]@);
            proof {
                assert(all.to_set().contains(all[i as int]));
            }
            match self.room_mut(names[i].as_str()) {
                Ok(found) => {
                    clients_connected = clients_connected.saturating_add(found.clients.len());
                    if found.settings.public {
                        let mut players: Vec<String> = Vec::new();
                        let mut c: usize = 0;
                        while c < found.clients.len()
                            invariant
                                c <= found.clients@.len(),
                                players@.len() == c,
                                forall|k: int|
                                    0 <= k < c ==> (#[trigger] players@[k])@
                                        == found.clients@[k].username@,
                            decreases found.clients@.len() - c,
                        {
                            players.push(found.clients[c].username.clone());
                            c += 1;
                        }
                        assert(players.deep_view() =~= usernames(found));
                        let ghost before = listed.deep_view();
                        let data = RoomData {
                            name: names[i].clone(),
                            players,
                            game: found.settings.game,
                        };
                        listed.push(data);
                        assert(listed.deep_view() =~= before.push(data.deep_view()));
                    }
                    self.restore_room(names[i].as_str(), found);
                    assert(self.entries() =~= old(self).entries());
                },
                Err(_) => {},
            }
            i += 1;
        }
        assert(all.subrange(0, i as int) =~= all);
        ServerInfo { clients_connected, public_rooms: listed }
    }
}

} // verus!
