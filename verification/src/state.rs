//! The server's state: the rooms by name, the rate limiter and the
//! dictionary, and the dispatch of the clients' messages.

use vstd::prelude::*;
use crate::clients::{any_connected, socket_of};
use crate::error::{AnagramsError, GameError, RoomError, WordBombError};
use crate::global::GlobalData;
use crate::messages::{
    nothing, ClientMessage, Effect, EffectView, Games, RoomSettings, ServerMessageView,
};
use crate::outside::{
    fresh_id, limiter_check, limiter_quota, limiter_new, table_has, table_new, table_put,
    table_rooms, table_take, Limiter,
};
use crate::anagrams::MAX_GUESS;
use crate::play::{same_error, MAX_INPUT};
use crate::room::{Params, Room, MAX_CHAT};
use crate::text::{byte_len, byte_length, filter_string, filtered};

verus! {

/// Messages a second that a sender may send in the long run.
pub const RATE_PER_SECOND: u32 = 8;

/// Messages that a sender may send at once.
pub const RATE_BURST: u32 = 24;

/// Most clients that a room takes.
pub const ROOM_CAPACITY: usize = 8;

pub struct AppState {
    pub rooms: dashmap::DashMap<String, Room>,
    pub limiter: Limiter,
    pub global: GlobalData,
    /// The handle for the next task.
    pub next_task: u64,
}

/// Who sent a message: the client, and the room it is in.
#[derive(Clone, Copy)]
pub struct SenderInfo<'a> {
    pub uuid: u128,
    pub room: &'a str,
}

impl AppState {
    /// The rooms by the text of their names.
    pub open spec fn entries(&self) -> Map<Seq<char>, Room> {
        table_rooms(self.rooms)
    }

    /// There is a room of that name.
    pub open spec fn has_room(&self, name: Seq<char>) -> bool {
        self.entries().contains_key(name)
    }

    /// The state's invariant: the limiter lets each sender send eight
    /// messages a second and twenty-four at once; the dictionary has what
    /// games need; every room is sound and has a connected client.
    pub open spec fn wf(&self) -> bool {
        &&& limiter_quota(self.limiter) == (RATE_PER_SECOND, RATE_BURST)
        &&& self.global.playable()
        &&& forall|name: Seq<char>| #[trigger]
            self.entries().contains_key(name) ==> self.entries()[name].wf() && any_connected(
                self.entries()[name].clients@,
            )
    }

    /// A room that was just made: nobody is in it, it is in the lobby, and
    /// its settings are the first ones.
    pub open spec fn is_new_room(room: Room) -> bool {
        &&& room.owner == 0
        &&& room.settings == RoomSettings::initial()
        &&& room.clients@.len() == 0
        &&& room.state is Lobby
        &&& room.state->Lobby_0.ready@.len() == 0
        &&& room.state->Lobby_0.countdown is None
    }

    /// Nothing but the room of that name differs, and the next task's handle
    /// has moved on by one.
    pub open spec fn only_room(pre: AppState, post: AppState, name: Seq<char>) -> bool {
        &&& post.entries() == pre.entries().insert(name, post.entries()[name])
        &&& post.limiter == pre.limiter
        &&& post.global == pre.global
        &&& post.next_task == pre.next_task.wrapping_add(1)
    }

    /// Nothing differs at all.
    pub open spec fn unchanged(pre: AppState, post: AppState) -> bool {
        &&& post.entries() == pre.entries()
        &&& post.limiter == pre.limiter
        &&& post.global == pre.global
        &&& post.next_task == pre.next_task
    }

    /// A server without rooms.
    pub fn new(global: GlobalData) -> (r: AppState)
        requires
            global.playable(),
        ensures
            r.wf(),
            r.entries().dom() == Set::<Seq<char>>::empty(),
            r.global == global,
            r.next_task == 0,
            limiter_quota(r.limiter) == (RATE_PER_SECOND, RATE_BURST),
    {
        AppState {
            rooms: table_new(),
            limiter: limiter_new(RATE_PER_SECOND, RATE_BURST),
            global,
            next_task: 0,
        }
    }

    /// Takes the room of that name out of the table, for a step; `put_room`
    /// or `restore_room` puts it back afterwards. Fails, and changes nothing,
    /// where there is no room of that name.
    pub fn room_mut(&mut self, room: &str) -> (r: Result<Room, GameError>)
        ensures
            final(self).entries() == old(self).entries().remove(room@),
            final(self).limiter == old(self).limiter,
            final(self).global == old(self).global,
            final(self).next_task == old(self).next_task,
            old(self).has_room(room@) ==> r == Ok::<Room, GameError>(old(self).entries()[room@]),
            !old(self).has_room(room@) ==> no_such_room(r, room@) && Self::unchanged(
                *old(self),
                *final(self),
            ),
    {
        match table_take(&mut self.rooms, room) {
            Some(found) => Ok(found),
            None => {
                assert(self.entries() =~= old(self).entries());
                Err(GameError::RoomNotFound { room: room.to_owned() })
            },
        }
    }

    /// Puts a room back into the table after a step that may have started a
    /// task: the next task's handle moves on.
    pub fn put_room(&mut self, room: &str, value: Room)
        ensures
            final(self).entries() == old(self).entries().insert(room@, value),
            final(self).limiter == old(self).limiter,
            final(self).global == old(self).global,
            final(self).next_task == old(self).next_task.wrapping_add(1),
    {
        table_put(&mut self.rooms, room.to_owned(), value);
        self.next_task = self.next_task.wrapping_add(1);
    }

    /// Puts a room back into the table after a step that started no task.
    pub fn restore_room(&mut self, room: &str, value: Room)
        ensures
            final(self).entries() == old(self).entries().insert(room@, value),
            final(self).limiter == old(self).limiter,
            final(self).global == old(self).global,
            final(self).next_task == old(self).next_task,
    {
        table_put(&mut self.rooms, room.to_owned(), value);
    }

    /// Whether no room has that name yet.
    pub fn room_available(&self, name: &str) -> (r: bool)
        ensures
            r == !self.has_room(name@),
    {
        !table_has(&self.rooms, name)
    }
}

/// The result says that there is no room of that name.
pub open spec fn no_such_room<T>(r: Result<T, GameError>, name: Seq<char>) -> bool {
    r matches Err(GameError::RoomNotFound { room }) && room@ == name
}

impl AppState {
    /// Whether the room of that name is full.
    pub fn room_full(&mut self, room: &str) -> (r: bool)
        ensures
            Self::unchanged(*old(self), *final(self)),
            r == (old(self).has_room(room@) && old(self).entries()[room@].clients@.len()
                >= ROOM_CAPACITY),
    {
        match self.room_mut(room) {
            Ok(found) => {
                let full = found.clients.len() >= ROOM_CAPACITY;
                self.restore_room(room, found);
                assert(self.entries() =~= old(self).entries());
                full
            },
            Err(_) => false,
        }
    }

    /// What a join does to the server: the room of that name is made if it
    /// is not there, and is joined.
    pub open spec fn joined(
        pre: AppState,
        post: AppState,
        name: Seq<char>,
        params: Params,
        socket: u128,
        uuid: u128,
        effects: Seq<EffectView>,
    ) -> bool {
        &&& post.has_room(name)
        &&& post.entries() == pre.entries().insert(name, post.entries()[name])
        &&& post.limiter == pre.limiter
        &&& post.global == pre.global
        &&& post.next_task == pre.next_task
        &&& exists|before: Room, fresh: u128|
            #![trigger Room::joined(
                before,
                post.entries()[name],
                params,
                socket,
                fresh,
                uuid,
                effects,
            )]
            {
                &&& if pre.has_room(name) {
                    before == pre.entries()[name]
                } else {
                    Self::is_new_room(before)
                }
                &&& Room::joined(before, post.entries()[name], params, socket, fresh, uuid, effects)
            }
    }

    /// A connection joins the room of that name, under an identity that is
    /// drawn for it unless it takes a client over.
    pub fn add_client(&mut self, room: &str, params: Params, socket_uuid: u128) -> (r: (
        u128,
        Vec<Effect>,
    ))
        requires
            old(self).wf(),
        ensures
            final(self).wf(),
            Self::joined(
                *old(self),
                *final(self),
                room@,
                params,
                socket_uuid,
                r.0,
                r.1.deep_view(),
            ),
    {
        let mut found = match self.room_mut(room) {
            Ok(found) => found,
            Err(_) => Room::default(),
        };
        let ghost before = found;
        let fresh = fresh_id();
        let r = found.add_client(params, socket_uuid, fresh);
        self.restore_room(room, found);
        proof {
            assert(self.entries() =~= old(self).entries().insert(room@, found));
            assert(Room::joined(
                before,
                self.entries()[room@],
                params,
                socket_uuid,
                fresh,
                r.0,
                r.1.deep_view(),
            ));
            assert forall|name: Seq<char>| #[trigger]
                self.entries().contains_key(name) implies self.entries()[name].wf() by {
                if name != room@ {
                    assert(old(self).entries().contains_key(name));
                }
            }
        }
        r
    }

    /// What a disconnect does to the server: the step is taken in the room,
    /// and a room without connected clients is taken off the table.
    pub open spec fn left(
        pre: AppState,
        post: AppState,
        uuid: u128,
        name: Seq<char>,
        socket_id: u128,
        r: Result<Vec<Effect>, GameError>,
    ) -> bool {
        &&& post.limiter == pre.limiter
        &&& post.global == pre.global
        &&& if !pre.has_room(name) {
            no_such_room(r, name) && Self::unchanged(pre, post)
        } else {
            exists|after: Room, closed: bool|
                #![trigger Room::leave_step(
                    pre.entries()[name],
                    after,
                    uuid,
                    socket_id,
                    name,
                    pre.next_task,
                    pair(r, closed),
                )]
                {
                    &&& Room::leave_step(
                        pre.entries()[name],
                        after,
                        uuid,
                        socket_id,
                        name,
                        pre.next_task,
                        pair(r, closed),
                    )
                    &&& post.next_task == pre.next_task.wrapping_add(1)
                    &&& post.entries() == if r is Ok && closed {
                        pre.entries().remove(name)
                    } else {
                        pre.entries().insert(name, after)
                    }
                }
        }
    }

    /// A connection of a client went away.
    pub fn remove_client(&mut self, sender: SenderInfo, socket_id: u128) -> (r: Result<
        Vec<Effect>,
        GameError,
    >)
        requires
            old(self).wf(),
        ensures
            final(self).wf(),
            Self::left(*old(self), *final(self), sender.uuid, sender.room@, socket_id, r),
    {
        let task = self.next_task;
        let mut found = match self.room_mut(sender.room) {
            Ok(found) => found,
            Err(error) => {
                return Err(error);
            },
        };
        let outcome = found.remove_client(sender.uuid, socket_id, sender.room, task);
        let closed = match &outcome {
            Ok(done) => done.0,
            Err(_) => false,
        };
        let ghost full = outcome;
        let r = match outcome {
            Ok(done) => Ok(done.1),
            Err(error) => Err(error),
        };
        if closed {
            self.next_task = self.next_task.wrapping_add(1);
        } else {
            self.put_room(sender.room, found);
        }
        proof {
            assert(pair(r, closed) == full);
            if closed {
                assert(self.entries() =~= old(self).entries().remove(sender.room@));
            } else {
                assert(self.entries() =~= old(self).entries().insert(sender.room@, found));
            }
            assert forall|name: Seq<char>| #[trigger]
                self.entries().contains_key(name) implies self.entries()[name].wf() by {
                if name != sender.room@ {
                    assert(old(self).entries().contains_key(name));
                } else {
                    assert(old(self).entries().contains_key(name));
                }
            }
        }
        r
    }
}

/// The result of a disconnect in a room, made of what the server hands on
/// and of whether the room is to be closed.
pub open spec fn pair(r: Result<Vec<Effect>, GameError>, closed: bool) -> Result<
    (bool, Vec<Effect>),
    GameError,
> {
    match r {
        Ok(effects) => Ok((closed, effects)),
        Err(error) => Err(error),
    }
}

impl AppState {
    /// What the step does to the server: it is taken in the room of that
    /// name and nothing else changes; without such a room it fails.
    pub open spec fn client_ping_outcome(
        pre: AppState,
        post: AppState,
        uuid: u128,
        name: Seq<char>,
        timestamp: u64,
        r: Result<Vec<Effect>, GameError>,
    ) -> bool {
        if pre.has_room(name) {
            &&& Self::unchanged(pre, post)
            &&& r is Ok
            &&& r->Ok_0.deep_view() == seq![
                EffectView::Send {
                    to: socket_of(pre.entries()[name].clients@, uuid),
                    message: ServerMessageView::Pong { timestamp },
                },
            ]
        } else {
            no_such_room(r, name) && Self::unchanged(pre, post)
        }
    }

    /// A ping is answered.
    pub fn client_ping(
        &mut self,
        sender: SenderInfo,
        timestamp: u64,
    ) -> (r: Result<Vec<Effect>, GameError>)
        requires
            old(self).wf(),
        ensures
            final(self).wf(),
            Self::client_ping_outcome(
                *old(self),
                *final(self),
                sender.uuid,
                sender.room@,
                timestamp,
                r,
            ),
    {
        let mut found = match self.room_mut(sender.room) {
            Ok(found) => found,
            Err(error) => {
                return Err(error);
            },
        };
        let r = Ok::<Vec<Effect>, GameError>(found.client_ping(sender.uuid, timestamp));
        self.restore_room(sender.room, found);
        proof {
            assert(self.entries() =~= old(self).entries());
            assert forall|name: Seq<char>| #[trigger]
                self.entries().contains_key(name) implies self.entries()[name].wf() by {
                assert(old(self).entries().contains_key(name));
            }
        }
        r
    }

    /// What the step does to the server: it is taken in the room of that
    /// name and nothing else changes; without such a room it fails.
    pub open spec fn client_ready_outcome(
        pre: AppState,
        post: AppState,
        uuid: u128,
        name: Seq<char>,
        r: Result<Vec<Effect>, GameError>,
    ) -> bool {
        if pre.has_room(name) {
            &&& Self::only_room(pre, post, name)
            &&& Room::ready_step(
                pre.entries()[name],
                post.entries()[name],
                uuid,
                name,
                pre.next_task,
                r,
            )
        } else {
            no_such_room(r, name) && Self::unchanged(pre, post)
        }
    }

    /// A player is ready.
    pub fn client_ready(&mut self, sender: SenderInfo) -> (r: Result<Vec<Effect>, GameError>)
        requires
            old(self).wf(),
        ensures
            final(self).wf(),
            Self::client_ready_outcome(*old(self), *final(self), sender.uuid, sender.room@, r),
    {
        let task = self.next_task;
        let mut found = match self.room_mut(sender.room) {
            Ok(found) => found,
            Err(error) => {
                return Err(error);
            },
        };
        let r = found.client_ready(sender.uuid, sender.room, task);
        self.put_room(sender.room, found);
        proof {
            assert(self.entries() =~= old(self).entries().insert(sender.room@, found));
            assert forall|name: Seq<char>| #[trigger]
                self.entries().contains_key(name) implies self.entries()[name].wf() by {
                assert(old(self).entries().contains_key(name));
            }
        }
        r
    }

    /// What the step does to the server: it is taken in the room of that
    /// name and nothing else changes; without such a room it fails.
    pub open spec fn client_unready_outcome(
        pre: AppState,
        post: AppState,
        uuid: u128,
        name: Seq<char>,
        r: Result<Vec<Effect>, GameError>,
    ) -> bool {
        if pre.has_room(name) {
            &&& Self::only_room(pre, post, name)
            &&& Room::unready_step(
                pre.entries()[name],
                post.entries()[name],
                uuid,
                name,
                pre.next_task,
                r,
            )
        } else {
            no_such_room(r, name) && Self::unchanged(pre, post)
        }
    }

    /// A player is no longer ready.
    pub fn client_unready(&mut self, sender: SenderInfo) -> (r: Result<Vec<Effect>, GameError>)
        requires
            old(self).wf(),
        ensures
            final(self).wf(),
            Self::client_unready_outcome(*old(self), *final(self), sender.uuid, sender.room@, r),
    {
        let task = self.next_task;
        let mut found = match self.room_mut(sender.room) {
            Ok(found) => found,
            Err(error) => {
                return Err(error);
            },
        };
        let r = found.client_unready(sender.uuid, sender.room, task);
        self.put_room(sender.room, found);
        proof {
            assert(self.entries() =~= old(self).entries().insert(sender.room@, found));
            assert forall|name: Seq<char>| #[trigger]
                self.entries().contains_key(name) implies self.entries()[name].wf() by {
                assert(old(self).entries().contains_key(name));
            }
        }
        r
    }

    /// What the step does to the server: it is taken in the room of that
    /// name and nothing else changes; without such a room it fails.
    pub open spec fn client_start_early_outcome(
        pre: AppState,
        post: AppState,
        uuid: u128,
        name: Seq<char>,
        now: u64,
        r: Result<Vec<Effect>, GameError>,
    ) -> bool {
        if pre.has_room(name) {
            &&& Self::only_room(pre, post, name)
            &&& Room::start_early_step(
                pre.entries()[name],
                post.entries()[name],
                uuid,
                name,
                &pre.global,
                now,
                pre.next_task,
                r,
            )
        } else {
            no_such_room(r, name) && Self::unchanged(pre, post)
        }
    }

    /// The owner asks for the game to start at once.
    pub fn client_start_early(
        &mut self,
        sender: SenderInfo,
        now: u64,
    ) -> (r: Result<Vec<Effect>, GameError>)
        requires
            old(self).wf(),
        ensures
            final(self).wf(),
            Self::client_start_early_outcome(
                *old(self),
                *final(self),
                sender.uuid,
                sender.room@,
                now,
                r,
            ),
    {
        let task = self.next_task;
        let mut found = match self.room_mut(sender.room) {
            Ok(found) => found,
            Err(error) => {
                return Err(error);
            },
        };
        let r = found.client_start_early(sender.uuid, sender.room, &self.global, now, task);
        self.put_room(sender.room, found);
        proof {
            assert(self.entries() =~= old(self).entries().insert(sender.room@, found));
            assert forall|name: Seq<char>| #[trigger]
                self.entries().contains_key(name) implies self.entries()[name].wf() by {
                assert(old(self).entries().contains_key(name));
            }
        }
        r
    }

    /// What the step does to the server: it is taken in the room of that
    /// name and nothing else changes; without such a room it fails.
    pub open spec fn client_room_settings_outcome(
        pre: AppState,
        post: AppState,
        uuid: u128,
        name: Seq<char>,
        update: RoomSettings,
        r: Result<Vec<Effect>, GameError>,
    ) -> bool {
        if pre.has_room(name) {
            &&& Self::only_room(pre, post, name)
            &&& r is Ok
            &&& Room::settings_step(
                pre.entries()[name],
                post.entries()[name],
                uuid,
                update,
                r->Ok_0.deep_view(),
            )
        } else {
            no_such_room(r, name) && Self::unchanged(pre, post)
        }
    }

    /// The sender changes the settings.
    pub fn client_room_settings(
        &mut self,
        sender: SenderInfo,
        settings_update: RoomSettings,
    ) -> (r: Result<Vec<Effect>, GameError>)
        requires
            old(self).wf(),
        ensures
            final(self).wf(),
            Self::client_room_settings_outcome(
                *old(self),
                *final(self),
                sender.uuid,
                sender.room@,
                settings_update,
                r,
            ),
    {
        let task = self.next_task;
        let mut found = match self.room_mut(sender.room) {
            Ok(found) => found,
            Err(error) => {
                return Err(error);
            },
        };
        let r = Ok::<Vec<Effect>, GameError>(
            found.client_room_settings(sender.uuid, settings_update),
        );
        self.put_room(sender.room, found);
        proof {
            assert(self.entries() =~= old(self).entries().insert(sender.room@, found));
            assert forall|name: Seq<char>| #[trigger]
                self.entries().contains_key(name) implies self.entries()[name].wf() by {
                assert(old(self).entries().contains_key(name));
            }
        }
        r
    }

    /// What the step does to the server: it is taken in the room of that
    /// name and nothing else changes; without such a room it fails.
    pub open spec fn client_practice_request_outcome(
        pre: AppState,
        post: AppState,
        uuid: u128,
        name: Seq<char>,
        game: Games,
        r: Result<Vec<Effect>, GameError>,
    ) -> bool {
        if pre.has_room(name) {
            &&& Self::unchanged(pre, post)
            &&& r is Ok
            &&& exists|set: Seq<Seq<char>>| #[trigger]
                pre.entries()[name].practice_set(game, set, &pre.global) && r->Ok_0.deep_view()
                    == seq![
                    EffectView::Send {
                        to: socket_of(pre.entries()[name].clients@, uuid),
                        message: ServerMessageView::PracticeSet { set },
                    },
                ]
        } else {
            no_such_room(r, name) && Self::unchanged(pre, post)
        }
    }

    /// The sender asks for a set to practise with.
    pub fn client_practice_request(
        &mut self,
        sender: SenderInfo,
        game: Games,
    ) -> (r: Result<Vec<Effect>, GameError>)
        requires
            old(self).wf(),
        ensures
            final(self).wf(),
            Self::client_practice_request_outcome(
                *old(self),
                *final(self),
                sender.uuid,
                sender.room@,
                game,
                r,
            ),
    {
        let mut found = match self.room_mut(sender.room) {
            Ok(found) => found,
            Err(error) => {
                return Err(error);
            },
        };
        let r = Ok::<Vec<Effect>, GameError>(
            found.client_practice_request(sender.uuid, game, &self.global),
        );
        self.restore_room(sender.room, found);
        proof {
            assert(self.entries() =~= old(self).entries());
            assert forall|name: Seq<char>| #[trigger]
                self.entries().contains_key(name) implies self.entries()[name].wf() by {
                assert(old(self).entries().contains_key(name));
            }
        }
        r
    }

    /// What the step does to the server: it is taken in the room of that
    /// name and nothing else changes; without such a room it fails.
    pub open spec fn client_practice_submission_outcome(
        pre: AppState,
        post: AppState,
        uuid: u128,
        name: Seq<char>,
        game: Games,
        prompt: Seq<char>,
        input: Seq<char>,
        r: Result<Vec<Effect>, GameError>,
    ) -> bool {
        if pre.has_room(name) {
            &&& Self::unchanged(pre, post)
            &&& r is Ok
            &&& r->Ok_0.deep_view() == seq![
                EffectView::Send {
                    to: socket_of(pre.entries()[name].clients@, uuid),
                    message: ServerMessageView::PracticeResult {
                        correct: Room::practice_correct(game, prompt, input, &pre.global),
                    },
                },
            ]
        } else {
            no_such_room(r, name) && Self::unchanged(pre, post)
        }
    }

    /// The sender hands in a practice answer.
    pub fn client_practice_submission(
        &mut self,
        sender: SenderInfo,
        game: Games,
        prompt: &str,
        input: &str,
    ) -> (r: Result<Vec<Effect>, GameError>)
        requires
            old(self).wf(),
        ensures
            final(self).wf(),
            Self::client_practice_submission_outcome(
                *old(self),
                *final(self),
                sender.uuid,
                sender.room@,
                game,
                prompt@,
                input@,
                r,
            ),
    {
        let mut found = match self.room_mut(sender.room) {
            Ok(found) => found,
            Err(error) => {
                return Err(error);
            },
        };
        let r = Ok::<Vec<Effect>, GameError>(
            found.client_practice_submission(sender.uuid, game, prompt, input, &self.global),
        );
        self.restore_room(sender.room, found);
        proof {
            assert(self.entries() =~= old(self).entries());
            assert forall|name: Seq<char>| #[trigger]
                self.entries().contains_key(name) implies self.entries()[name].wf() by {
                assert(old(self).entries().contains_key(name));
            }
        }
        r
    }

    /// What the step does to the server: it is taken in the room of that
    /// name and nothing else changes; without such a room it fails.
    pub open spec fn client_chat_message_outcome(
        pre: AppState,
        post: AppState,
        uuid: u128,
        name: Seq<char>,
        content: Seq<char>,
        r: Result<Vec<Effect>, GameError>,
    ) -> bool {
        if byte_len(content) > MAX_CHAT {
            r is Err && same_error(
                r->Err_0,
                GameError::Room(RoomError::ChatMessageTooLong),
            ) && Self::unchanged(pre, post)
        } else if pre.has_room(name) {
            &&& Self::unchanged(pre, post)
            &&& pre.entries()[name].chat_step(uuid, content, r)
        } else {
            no_such_room(r, name) && Self::unchanged(pre, post)
        }
    }

    /// A chat message from a client. Its length is looked at before the room is.
    pub fn client_chat_message(
        &mut self,
        sender: SenderInfo,
        content: String,
    ) -> (r: Result<Vec<Effect>, GameError>)
        requires
            old(self).wf(),
        ensures
            final(self).wf(),
            Self::client_chat_message_outcome(
                *old(self),
                *final(self),
                sender.uuid,
                sender.room@,
                content@,
                r,
            ),
    {
        if byte_length(content.as_str()) > MAX_CHAT {
            return Err(GameError::Room(RoomError::ChatMessageTooLong));
        }
        let mut found = match self.room_mut(sender.room) {
            Ok(found) => found,
            Err(error) => {
                return Err(error);
            },
        };
        let r = found.client_chat_message(sender.uuid, content);
        self.restore_room(sender.room, found);
        proof {
            assert(self.entries() =~= old(self).entries());
            assert forall|name: Seq<char>| #[trigger]
                self.entries().contains_key(name) implies self.entries()[name].wf() by {
                assert(old(self).entries().contains_key(name));
            }
        }
        r
    }

    /// What the step does to the server: it is taken in the room of that
    /// name and nothing else changes; without such a room it fails.
    pub open spec fn send_error_msg_outcome(
        pre: AppState,
        post: AppState,
        uuid: u128,
        name: Seq<char>,
        message: Seq<char>,
        r: Result<Vec<Effect>, GameError>,
    ) -> bool {
        if pre.has_room(name) {
            &&& Self::unchanged(pre, post)
            &&& r is Ok
            &&& r->Ok_0.deep_view() == seq![
                EffectView::Send {
                    to: socket_of(pre.entries()[name].clients@, uuid),
                    message: ServerMessageView::Error { content: "server error: "@ + message },
                },
            ]
        } else {
            no_such_room(r, name) && Self::unchanged(pre, post)
        }
    }

    /// The sender is told of an error.
    pub fn send_error_msg(
        &mut self,
        sender: SenderInfo,
        message: &str,
    ) -> (r: Result<Vec<Effect>, GameError>)
        requires
            old(self).wf(),
        ensures
            final(self).wf(),
            Self::send_error_msg_outcome(
                *old(self),
                *final(self),
                sender.uuid,
                sender.room@,
                message@,
                r,
            ),
    {
        let mut found = match self.room_mut(sender.room) {
            Ok(found) => found,
            Err(error) => {
                return Err(error);
            },
        };
        let r = Ok::<Vec<Effect>, GameError>(found.send_error_msg(sender.uuid, message));
        self.restore_room(sender.room, found);
        proof {
            assert(self.entries() =~= old(self).entries());
            assert forall|name: Seq<char>| #[trigger]
                self.entries().contains_key(name) implies self.entries()[name].wf() by {
                assert(old(self).entries().contains_key(name));
            }
        }
        r
    }

    /// What the step does to the server: it is taken in the room of that
    /// name and nothing else changes; without such a room it fails.
    pub open spec fn word_bomb_input_outcome(
        pre: AppState,
        post: AppState,
        uuid: u128,
        name: Seq<char>,
        input: Seq<char>,
        r: Result<Vec<Effect>, GameError>,
    ) -> bool {
        if byte_len(input) > MAX_INPUT {
            r is Err && same_error(
                r->Err_0,
                GameError::WordBomb(WordBombError::InputTooLong),
            ) && Self::unchanged(pre, post)
        } else if pre.has_room(name) {
            &&& Self::only_room(pre, post, name)
            &&& Room::input_step(pre.entries()[name], post.entries()[name], uuid, input, r)
        } else {
            no_such_room(r, name) && Self::unchanged(pre, post)
        }
    }

    /// The player whose turn it is has typed. The input's length is looked at
    /// before the room is.
    pub fn word_bomb_input(
        &mut self,
        sender: SenderInfo,
        new_input: String,
    ) -> (r: Result<Vec<Effect>, GameError>)
        requires
            old(self).wf(),
        ensures
            final(self).wf(),
            Self::word_bomb_input_outcome(
                *old(self),
                *final(self),
                sender.uuid,
                sender.room@,
                new_input@,
                r,
            ),
    {
        if byte_length(new_input.as_str()) > MAX_INPUT {
            return Err(GameError::WordBomb(WordBombError::InputTooLong));
        }
        let task = self.next_task;
        let mut found = match self.room_mut(sender.room) {
            Ok(found) => found,
            Err(error) => {
                return Err(error);
            },
        };
        let r = found.word_bomb_input(sender.uuid, new_input);
        self.put_room(sender.room, found);
        proof {
            assert(self.entries() =~= old(self).entries().insert(sender.room@, found));
            assert forall|name: Seq<char>| #[trigger]
                self.entries().contains_key(name) implies self.entries()[name].wf() by {
                assert(old(self).entries().contains_key(name));
            }
        }
        r
    }

    /// What the step does to the server: it is taken in the room of that
    /// name and nothing else changes; without such a room it fails.
    pub open spec fn word_bomb_guess_outcome(
        pre: AppState,
        post: AppState,
        uuid: u128,
        name: Seq<char>,
        guess: Seq<char>,
        now: u64,
        r: Result<Vec<Effect>, GameError>,
    ) -> bool {
        if byte_len(filtered(guess)) > MAX_INPUT {
            r is Err && same_error(
                r->Err_0,
                GameError::WordBomb(WordBombError::GuessTooLong),
            ) && Self::unchanged(pre, post)
        } else if pre.has_room(name) {
            &&& Self::only_room(pre, post, name)
            &&& Room::guess_step(
                pre.entries()[name],
                post.entries()[name],
                uuid,
                guess,
                name,
                &pre.global,
                now,
                pre.next_task,
                r,
            )
        } else {
            no_such_room(r, name) && Self::unchanged(pre, post)
        }
    }

    /// A player guesses a word in Word Bomb. The length of the normalised guess
    /// is looked at before the room is.
    pub fn word_bomb_guess(
        &mut self,
        sender: SenderInfo,
        guess: String,
        now: u64,
    ) -> (r: Result<Vec<Effect>, GameError>)
        requires
            old(self).wf(),
        ensures
            final(self).wf(),
            Self::word_bomb_guess_outcome(
                *old(self),
                *final(self),
                sender.uuid,
                sender.room@,
                guess@,
                now,
                r,
            ),
    {
        let mut probe = guess.clone();
        filter_string(&mut probe);
        if byte_length(probe.as_str()) > MAX_INPUT {
            return Err(GameError::WordBomb(WordBombError::GuessTooLong));
        }
        let task = self.next_task;
        let mut found = match self.room_mut(sender.room) {
            Ok(found) => found,
            Err(error) => {
                return Err(error);
            },
        };
        let r = found.word_bomb_guess(sender.uuid, guess, sender.room, &self.global, now, task);
        self.put_room(sender.room, found);
        proof {
            assert(self.entries() =~= old(self).entries().insert(sender.room@, found));
            assert forall|name: Seq<char>| #[trigger]
                self.entries().contains_key(name) implies self.entries()[name].wf() by {
                assert(old(self).entries().contains_key(name));
            }
        }
        r
    }

    /// What the step does to the server: it is taken in the room of that
    /// name and nothing else changes; without such a room it fails.
    pub open spec fn anagrams_guess_outcome(
        pre: AppState,
        post: AppState,
        uuid: u128,
        name: Seq<char>,
        guess: Seq<char>,
        r: Result<Vec<Effect>, GameError>,
    ) -> bool {
        if byte_len(filtered(guess)) > MAX_GUESS {
            r is Err && same_error(
                r->Err_0,
                GameError::Anagrams(AnagramsError::GuessTooLong),
            ) && Self::unchanged(pre, post)
        } else if pre.has_room(name) {
            &&& Self::only_room(pre, post, name)
            &&& Room::anagram_step(
                pre.entries()[name],
                post.entries()[name],
                uuid,
                guess,
                &pre.global,
                r,
            )
        } else {
            no_such_room(r, name) && Self::unchanged(pre, post)
        }
    }

    /// A player guesses a word in Anagrams. The length of the normalised guess
    /// is looked at before the room is.
    pub fn anagrams_guess(
        &mut self,
        sender: SenderInfo,
        guess: String,
    ) -> (r: Result<Vec<Effect>, GameError>)
        requires
            old(self).wf(),
        ensures
            final(self).wf(),
            Self::anagrams_guess_outcome(
                *old(self),
                *final(self),
                sender.uuid,
                sender.room@,
                guess@,
                r,
            ),
    {
        let mut probe = guess.clone();
        filter_string(&mut probe);
        if byte_length(probe.as_str()) > MAX_GUESS {
            return Err(GameError::Anagrams(AnagramsError::GuessTooLong));
        }
        let task = self.next_task;
        let mut found = match self.room_mut(sender.room) {
            Ok(found) => found,
            Err(error) => {
                return Err(error);
            },
        };
        let r = found.anagrams_guess(sender.uuid, guess, &self.global);
        self.put_room(sender.room, found);
        proof {
            assert(self.entries() =~= old(self).entries().insert(sender.room@, found));
            assert forall|name: Seq<char>| #[trigger]
                self.entries().contains_key(name) implies self.entries()[name].wf() by {
                assert(old(self).entries().contains_key(name));
            }
        }
        r
    }

    /// What the step does to the server: it is taken in the room of that
    /// name and nothing else changes; without such a room it fails.
    pub open spec fn start_when_ready_outcome(
        pre: AppState,
        post: AppState,
        name: Seq<char>,
        now: u64,
        r: Result<Vec<Effect>, GameError>,
    ) -> bool {
        if pre.has_room(name) {
            &&& Self::only_room(pre, post, name)
            &&& Room::tick_step(
                pre.entries()[name],
                post.entries()[name],
                name,
                &pre.global,
                now,
                pre.next_task,
                r,
            )
        } else {
            no_such_room(r, name) && Self::unchanged(pre, post)
        }
    }

    /// One tick of a room's countdown: the caller waits a second, calls this,
    /// and does so up to ten times unless the call fails.
    pub fn start_when_ready(&mut self, room: &str, now: u64) -> (r: Result<Vec<Effect>, GameError>)
        requires
            old(self).wf(),
        ensures
            final(self).wf(),
            Self::start_when_ready_outcome(*old(self), *final(self), room@, now, r),
    {
        let task = self.next_task;
        let mut found = match self.room_mut(room) {
            Ok(found) => found,
            Err(error) => {
                return Err(error);
            },
        };
        let r = found.start_when_ready(room, &self.global, now, task);
        self.put_room(room, found);
        proof {
            assert(self.entries() =~= old(self).entries().insert(room@, found));
            assert forall|name: Seq<char>| #[trigger]
                self.entries().contains_key(name) implies self.entries()[name].wf() by {
                assert(old(self).entries().contains_key(name));
            }
        }
        r
    }

    /// What the step does to the server: it is taken in the room of that
    /// name and nothing else changes; without such a room it fails.
    pub open spec fn word_bomb_timer_outcome(
        pre: AppState,
        post: AppState,
        name: Seq<char>,
        original_prompt: Seq<char>,
        now: u64,
        r: Result<Vec<Effect>, GameError>,
    ) -> bool {
        if pre.has_room(name) {
            &&& Self::only_room(pre, post, name)
            &&& Room::timer_step(
                pre.entries()[name],
                post.entries()[name],
                original_prompt,
                name,
                &pre.global,
                now,
                pre.next_task,
                r,
            )
        } else {
            no_such_room(r, name) && Self::unchanged(pre, post)
        }
    }

    /// After a turn's time: the caller waits for the timer's length and then
    /// calls this with the prompt that the timer was started for.
    pub fn word_bomb_timer(
        &mut self,
        room: &str,
        original_prompt: &str,
        now: u64,
    ) -> (r: Result<Vec<Effect>, GameError>)
        requires
            old(self).wf(),
        ensures
            final(self).wf(),
            Self::word_bomb_timer_outcome(
                *old(self),
                *final(self),
                room@,
                original_prompt@,
                now,
                r,
            ),
    {
        let task = self.next_task;
        let mut found = match self.room_mut(room) {
            Ok(found) => found,
            Err(error) => {
                return Err(error);
            },
        };
        let r = found.word_bomb_timer(original_prompt, room, &self.global, now, task);
        self.put_room(room, found);
        proof {
            assert(self.entries() =~= old(self).entries().insert(room@, found));
            assert forall|name: Seq<char>| #[trigger]
                self.entries().contains_key(name) implies self.entries()[name].wf() by {
                assert(old(self).entries().contains_key(name));
            }
        }
        r
    }

    /// What the step does to the server: it is taken in the room of that
    /// name and nothing else changes; without such a room it fails.
    pub open spec fn anagrams_timer_outcome(
        pre: AppState,
        post: AppState,
        name: Seq<char>,
        r: Result<Vec<Effect>, GameError>,
    ) -> bool {
        if pre.has_room(name) {
            &&& Self::only_room(pre, post, name)
            &&& Room::anagrams_end_step(pre.entries()[name], post.entries()[name], r)
        } else {
            no_such_room(r, name) && Self::unchanged(pre, post)
        }
    }

    /// After a game of Anagrams' time: the caller waits for the length of a
    /// game and then calls this.
    pub fn anagrams_timer(&mut self, room: &str) -> (r: Result<Vec<Effect>, GameError>)
        requires
            old(self).wf(),
        ensures
            final(self).wf(),
            Self::anagrams_timer_outcome(*old(self), *final(self), room@, r),
    {
        let task = self.next_task;
        let mut found = match self.room_mut(room) {
            Ok(found) => found,
            Err(error) => {
                return Err(error);
            },
        };
        let r = found.anagrams_timer();
        self.put_room(room, found);
        proof {
            assert(self.entries() =~= old(self).entries().insert(room@, found));
            assert forall|name: Seq<char>| #[trigger]
                self.entries().contains_key(name) implies self.entries()[name].wf() by {
                assert(old(self).entries().contains_key(name));
            }
        }
        r
    }

    /// What a message does to the server, once the rate limit has let it
    /// through: each kind of message is a step of its own.
    pub open spec fn applied(
        pre: AppState,
        post: AppState,
        uuid: u128,
        name: Seq<char>,
        message: ClientMessage,
        now: u64,
        r: Result<Vec<Effect>, GameError>,
    ) -> bool {
        match message {
            ClientMessage::Ping { timestamp } => Self::client_ping_outcome(
                pre,
                post,
                uuid,
                name,
                timestamp,
                r,
            ),
            ClientMessage::Ready => Self::client_ready_outcome(pre, post, uuid, name, r),
            ClientMessage::StartEarly => Self::client_start_early_outcome(
                pre,
                post,
                uuid,
                name,
                now,
                r,
            ),
            ClientMessage::Unready => Self::client_unready_outcome(pre, post, uuid, name, r),
            ClientMessage::PracticeRequest { game } => Self::client_practice_request_outcome(
                pre,
                post,
                uuid,
                name,
                game,
                r,
            ),
            ClientMessage::PracticeSubmission {
                game,
                prompt,
                input,
            } => Self::client_practice_submission_outcome(
                pre,
                post,
                uuid,
                name,
                game,
                prompt@,
                input@,
                r,
            ),
            ClientMessage::RoomSettings(settings) => Self::client_room_settings_outcome(
                pre,
                post,
                uuid,
                name,
                settings,
                r,
            ),
            ClientMessage::ChatMessage { content } => Self::client_chat_message_outcome(
                pre,
                post,
                uuid,
                name,
                content@,
                r,
            ),
            ClientMessage::WordBombInput { input } => Self::word_bomb_input_outcome(
                pre,
                post,
                uuid,
                name,
                input@,
                r,
            ),
            ClientMessage::WordBombGuess { word } => Self::word_bomb_guess_outcome(
                pre,
                post,
                uuid,
                name,
                word@,
                now,
                r,
            ),
            ClientMessage::AnagramsGuess { word } => Self::anagrams_guess_outcome(
                pre,
                post,
                uuid,
                name,
                word@,
                r,
            ),
        }
    }

    /// Takes the step that the message asks for.
    pub fn apply(&mut self, sender: SenderInfo, message: ClientMessage, now: u64) -> (r: Result<
        Vec<Effect>,
        GameError,
    >)
        requires
            old(self).wf(),
        ensures
            final(self).wf(),
            Self::applied(*old(self), *final(self), sender.uuid, sender.room@, message, now, r),
    {
        match message {
            ClientMessage::Ping { timestamp } => self.client_ping(sender, timestamp),
            ClientMessage::Ready => self.client_ready(sender),
            ClientMessage::StartEarly => self.client_start_early(sender, now),
            ClientMessage::Unready => self.client_unready(sender),
            ClientMessage::PracticeRequest { game } => self.client_practice_request(sender, game),
            ClientMessage::PracticeSubmission { game, prompt, input } => {
                self.client_practice_submission(sender, game, prompt.as_str(), input.as_str())
            },
            ClientMessage::RoomSettings(settings) => self.client_room_settings(sender, settings),
            ClientMessage::ChatMessage { content } => self.client_chat_message(sender, content),
            ClientMessage::WordBombInput { input } => self.word_bomb_input(sender, input),
            ClientMessage::WordBombGuess { word } => self.word_bomb_guess(sender, word, now),
            ClientMessage::AnagramsGuess { word } => self.anagrams_guess(sender, word),
        }
    }

    /// What becomes of a message. One that the rate limit holds back fails
    /// as rate limited; another takes its step. The effects of a step that
    /// succeeds are handed on. A failure leaves every room as it was, and its
    /// sender alone is told of it, in the words of the error, where the room
    /// exists.
    pub open spec fn dispatched(
        pre: AppState,
        post: AppState,
        uuid: u128,
        name: Seq<char>,
        message: ClientMessage,
        now: u64,
        allowed: bool,
        effects: Seq<EffectView>,
    ) -> bool {
        exists|r: Result<Vec<Effect>, GameError>|
            #![trigger Self::applied(pre, post, uuid, name, message, now, r)]
            {
                &&& if allowed {
                    Self::applied(pre, post, uuid, name, message, now, r)
                } else {
                    r == Err::<Vec<Effect>, GameError>(GameError::RateLimited) && Self::unchanged(
                        pre,
                        post,
                    )
                }
                &&& r is Err ==> post.entries() == pre.entries()
                &&& effects == match r {
                    Ok(done) => done.deep_view(),
                    Err(error) => if pre.has_room(name) {
                        seq![
                            EffectView::Send {
                                to: socket_of(pre.entries()[name].clients@, uuid),
                                message: ServerMessageView::Error {
                                    content: "server error: "@ + error.text(),
                                },
                            },
                        ]
                    } else {
                        Seq::empty()
                    },
                }
            }
    }

    /// Handles a message of which it is known whether the rate limit lets it
    /// through.
    pub fn dispatch(&mut self, sender: SenderInfo, message: ClientMessage, now: u64, allowed: bool) -> (r:
        Vec<Effect>)
        requires
            old(self).wf(),
        ensures
            final(self).wf(),
            Self::dispatched(
                *old(self),
                *final(self),
                sender.uuid,
                sender.room@,
                message,
                now,
                allowed,
                r.deep_view(),
            ),
    {
        let result = if allowed {
            self.apply(sender, message, now)
        } else {
            Err(GameError::RateLimited)
        };
        let ghost mid = *self;
        let ghost shown = result;
        let effects = match result {
            Ok(effects) => effects,
            Err(error) => {
                let words = error.message();
                match self.send_error_msg(sender, words.as_str()) {
                    Ok(effects) => effects,
                    Err(_) => nothing(),
                }
            },
        };
        proof {
            assert(Self::unchanged(mid, *self));
            if allowed {
                lemma_applied_same(
                    *old(self),
                    mid,
                    *self,
                    sender.uuid,
                    sender.room@,
                    message,
                    now,
                    shown,
                );
            }
            if allowed && shown is Err {
                lemma_failure_changes_nothing(
                    *old(self),
                    *self,
                    sender.uuid,
                    sender.room@,
                    message,
                    now,
                    shown,
                );
            }
            let seen = Self::applied(
                *old(self),
                *self,
                sender.uuid,
                sender.room@,
                message,
                now,
                shown,
            );
            assert(seen || !seen);
            assert(effects.deep_view() == match shown {
                Ok(done) => done.deep_view(),
                Err(error) => if old(self).has_room(sender.room@) {
                    seq![
                        EffectView::Send {
                            to: socket_of(
                                old(self).entries()[sender.room@].clients@,
                                sender.uuid,
                            ),
                            message: ServerMessageView::Error {
                                content: "server error: "@ + error.text(),
                            },
                        },
                    ]
                } else {
                    Seq::empty()
                },
            });
        }
        effects
    }

    /// Handles a message from a client: asks the rate limiter, whose quota
    /// the invariant fixes, under the sender's identity; takes the step if
    /// the limiter lets the message through; and tells the sender of a
    /// failure. What the limiter answers depends on the clock.
    pub fn handle(&mut self, sender: SenderInfo, message: ClientMessage, now: u64) -> (r: Vec<Effect>)
        requires
            old(self).wf(),
        ensures
            final(self).wf(),
            exists|allowed: bool| #[trigger]
                Self::dispatched(
                    *old(self),
                    *final(self),
                    sender.uuid,
                    sender.room@,
                    message,
                    now,
                    allowed,
                    r.deep_view(),
                ),
    {
        let allowed = limiter_check(&self.limiter, sender.uuid);
        self.dispatch(sender, message, now, allowed)
    }
}

/// A step that fails leaves every room as it was.
pub proof fn lemma_failure_changes_nothing(
    pre: AppState,
    post: AppState,
    uuid: u128,
    name: Seq<char>,
    message: ClientMessage,
    now: u64,
    r: Result<Vec<Effect>, GameError>,
)
    requires
        AppState::applied(pre, post, uuid, name, message, now, r),
        r is Err,
    ensures
        post.entries() == pre.entries(),
{
    if pre.has_room(name) {
        assert(post.entries() =~= pre.entries());
    }
}

/// What a step did to the server holds of every state with the same rooms,
/// dictionary and next handle as the state it led to.
pub proof fn lemma_applied_same(
    pre: AppState,
    mid: AppState,
    post: AppState,
    uuid: u128,
    name: Seq<char>,
    message: ClientMessage,
    now: u64,
    r: Result<Vec<Effect>, GameError>,
)
    requires
        AppState::applied(pre, mid, uuid, name, message, now, r),
        AppState::unchanged(mid, post),
    ensures
        AppState::applied(pre, post, uuid, name, message, now, r),
{
}

} // verus!
