//! A room: its owner, settings, clients and state, and what the clients'
//! messages and the timers do to it.

use vstd::prelude::*;
use crate::anagrams;
use crate::anagrams::Anagrams;
use crate::clients::{
    all_connected, any_connected, broadcast, client_ids, client_infos, find_client, first_free,
    find_holder, has_client, holder_of, ids_distinct, infos, lemma_has_client,
    ids_of, lemma_slot_of, pick_free, send_to, sent, slot_of, socket_of, sockets, tokens_unique,
    Client,
};
use crate::error::{GameError, RoomError};
use crate::global::GlobalData;
use crate::lobby::{lemma_same_ids, Lobby};
use crate::messages::{
    copy_ids, only, ConnectionUpdate, ConnectionUpdateView, Effect, EffectView, Games, RoomInfo,
    RoomInfoView, RoomSettings, RoomStateInfo, RoomStateInfoView, ServerMessage,
    ServerMessageView, CLOSE_ABNORMAL,
};
use crate::outside::{censor, censored};
use crate::text::{
    byte_len, byte_length, chars_of, contains, contains_text, drawable, is_drawable,
};
use vstd::string::StringExecFns;
use crate::word_bomb;
use crate::word_bomb::WordBomb;

verus! {

/// Longest chat message, in bytes.
pub const MAX_CHAT: usize = 250;

/// How many prompts or anagrams a practice set holds.
pub const PRACTICE_SET: usize = 50;

#[derive(Clone, Debug, PartialEq)]
pub struct Room {
    pub owner: u128,
    pub settings: RoomSettings,
    pub clients: Vec<Client>,
    pub state: State,
}

#[derive(Clone, Debug, PartialEq)]
pub enum State {
    Lobby(Lobby),
    WordBomb(WordBomb),
    Anagrams(Anagrams),
}

/// What a connecting client brings along.
#[derive(Clone, Debug, PartialEq)]
pub struct Params {
    pub username: String,
    pub rejoin_token: Option<u128>,
}

impl Default for State {
    fn default() -> (r: Self)
        ensures
            r is Lobby,
            r->Lobby_0.ready@.len() == 0,
            r->Lobby_0.countdown is None,
    {
        Self::Lobby(Lobby::new())
    }
}

impl Default for Room {
    fn default() -> (r: Self)
        ensures
            r.owner == 0,
            r.settings == RoomSettings::initial(),
            r.clients@.len() == 0,
            r.state is Lobby,
            r.state->Lobby_0.ready@.len() == 0,
            r.state->Lobby_0.countdown is None,
            r.wf(),
    {
        Room {
            owner: 0,
            settings: RoomSettings::default(),
            clients: Vec::new(),
            state: State::default(),
        }
    }
}

impl State {
    /// The state's invariant.
    pub open spec fn wf(&self) -> bool {
        match self {
            State::Lobby(lobby) => lobby.wf(),
            State::WordBomb(game) => game.wf(),
            State::Anagrams(game) => game.wf(),
        }
    }

    /// Handle of the task that the state waits for, if there is one.
    pub open spec fn pending(&self) -> Option<u64> {
        match self {
            State::Lobby(lobby) => match lobby.countdown {
                Some(countdown) => Some(countdown.timer_handle),
                None => None,
            },
            State::WordBomb(game) => Some(game.timer.task),
            State::Anagrams(game) => Some(game.timer),
        }
    }

    /// The lobby, if the room is in it.
    pub fn try_lobby(&mut self) -> (r: Result<&mut Lobby, GameError>)
        ensures
            *old(self) is Lobby ==> r is Ok && *r->Ok_0 == (*old(self))->Lobby_0 && *final(self)
                == State::Lobby(*final(r->Ok_0)),
            !(*old(self) is Lobby) ==> (r matches Err(GameError::InvalidState { state }) && state@
                == "lobby"@) && *final(self) == *old(self),
    {
        match self {
            State::Lobby(lobby) => Ok(lobby),
            _ => Err(GameError::InvalidState { state: "lobby" }),
        }
    }

    /// The game of Word Bomb, if the room plays one.
    pub fn try_word_bomb(&mut self) -> (r: Result<&mut WordBomb, GameError>)
        ensures
            *old(self) is WordBomb ==> r is Ok && *r->Ok_0 == (*old(self))->WordBomb_0 && *final(self)
                == State::WordBomb(*final(r->Ok_0)),
            !(*old(self) is WordBomb) ==> (r matches Err(GameError::InvalidState { state }) && state@
                == "word bomb"@) && *final(self) == *old(self),
    {
        match self {
            State::WordBomb(game) => Ok(game),
            _ => Err(GameError::InvalidState { state: "word bomb" }),
        }
    }

    /// The game of Anagrams, if the room plays one.
    pub fn try_anagrams(&mut self) -> (r: Result<&mut Anagrams, GameError>)
        ensures
            *old(self) is Anagrams ==> r is Ok && *r->Ok_0 == (*old(self))->Anagrams_0 && *final(self)
                == State::Anagrams(*final(r->Ok_0)),
            !(*old(self) is Anagrams) ==> (r matches Err(GameError::InvalidState { state }) && state@
                == "anagrams"@) && *final(self) == *old(self),
    {
        match self {
            State::Anagrams(game) => Ok(game),
            _ => Err(GameError::InvalidState { state: "anagrams" }),
        }
    }
}

/// The state as the client with the given identity is told of it: a player
/// of Word Bomb is told its own letters.
pub open spec fn state_info(state: State, uuid: u128) -> RoomStateInfoView {
    match state {
        State::Lobby(lobby) => RoomStateInfoView::Lobby {
            ready: lobby.ready@,
            starting_countdown: match lobby.countdown {
                Some(countdown) => Some(countdown.time_left),
                None => None,
            },
        },
        State::WordBomb(game) => RoomStateInfoView::WordBomb {
            players: game.players.deep_view(),
            turn: game.turn,
            prompt: game.prompt@,
            used_letters: if word_bomb::seat_of(game.players@, uuid) < game.players@.len() {
                Some(game.players@[word_bomb::seat_of(game.players@, uuid)].used_letters@)
            } else {
                None
            },
        },
        State::Anagrams(game) => RoomStateInfoView::Anagrams {
            players: game.players.deep_view(),
            anagram: game.anagram@,
        },
    }
}

/// The state as the client with the given identity is told of it.
pub fn room_state_info(state: &State, uuid: u128) -> (r: RoomStateInfo)
    ensures
        r.deep_view() == state_info(*state, uuid),
{
    match state {
        State::Lobby(lobby) => RoomStateInfo::Lobby {
            ready: copy_ids(&lobby.ready),
            starting_countdown: match lobby.countdown {
                Some(countdown) => Some(countdown.time_left),
                None => None,
            },
        },
        State::WordBomb(game) => RoomStateInfo::WordBomb {
            players: word_bomb::copy_players(&game.players),
            turn: game.turn,
            prompt: game.prompt.clone(),
            used_letters: match game.find_player(uuid) {
                Some(seat) => Some(word_bomb::copy_chars(&game.players[seat].used_letters)),
                None => None,
            },
        },
        State::Anagrams(game) => RoomStateInfo::Anagrams {
            players: anagrams::copy_players(&game.players),
            anagram: game.anagram.clone(),
        },
    }
}

/// A client exists under an identity exactly if some place holds it.
pub proof fn lemma_has_client_iff(clients: Seq<Client>, id: u128)
    ensures
        has_client(clients, id) <==> exists|i: int|
            0 <= i < clients.len() && (#[trigger] clients[i]).uuid == id,
{
    lemma_slot_of(clients, id);
    if has_client(clients, id) {
        assert(clients[slot_of(clients, id)].uuid == id);
    }
    if exists|i: int| 0 <= i < clients.len() && (#[trigger] clients[i]).uuid == id {
        let i = choose|i: int| 0 <= i < clients.len() && (#[trigger] clients[i]).uuid == id;
        lemma_has_client(clients, i);
    }
}

impl Room {
    /// The room's invariant: the clients are distinct, and no two hold the
    /// same rejoin token; a room with clients
    /// has a connected one, and its owner is among them; in the lobby every
    /// client is connected, none holds a rejoin token, and the ready players
    /// are clients; a game goes on only in a room with clients.
    pub open spec fn wf(&self) -> bool {
        &&& ids_distinct(self.clients@)
        &&& tokens_unique(self.clients@)
        &&& self.clients@.len() > 0 ==> has_client(self.clients@, self.owner) && any_connected(
            self.clients@,
        )
        &&& self.state.wf()
        &&& match self.state {
            State::Lobby(lobby) => {
                &&& all_connected(self.clients@)
                &&& forall|i: int|
                    0 <= i < self.clients@.len() ==> (
                    #[trigger] self.clients@[i]).rejoin_token is None
                &&& forall|k: int|
                    0 <= k < lobby.ready@.len() ==> has_client(
                        self.clients@,
                        #[trigger] lobby.ready@[k],
                    )
            },
            _ => self.clients@.len() > 0,
        }
    }

    /// The room as the client with the given identity is told of it.
    pub open spec fn snapshot(&self, uuid: u128) -> RoomInfoView {
        RoomInfoView {
            owner: self.owner,
            settings: self.settings,
            clients: infos(self.clients@),
            state: state_info(self.state, uuid),
        }
    }

    /// What a join does. Where the rejoin token is that of a client of the
    /// room, the connection takes that client over: a socket that the client
    /// still has is closed, and the client gets the new socket and name.
    /// Otherwise a new client joins, under the fresh identity or, where a
    /// client has that one already, under the first free one after it, and
    /// owns the room if it is the first. Every connected client, the new one too, is told
    /// of the connection, and the new socket is sent a snapshot of the room.
    pub open spec fn joined(
        pre: Room,
        post: Room,
        params: Params,
        socket: u128,
        fresh: u128,
        uuid: u128,
        effects: Seq<EffectView>,
    ) -> bool {
        let holder = match params.rejoin_token {
            Some(token) => holder_of(pre.clients@, token),
            None => pre.clients@.len() as int,
        };
        let told = EffectView::Send {
            to: seq![socket],
            message: ServerMessageView::Info { uuid, room: post.snapshot(uuid) },
        };
        &&& post.settings == pre.settings
        &&& post.state == pre.state
        &&& if holder < pre.clients@.len() {
            let before = pre.clients@[holder];
            &&& uuid == before.uuid
            &&& post.owner == pre.owner
            &&& post.clients@.len() == pre.clients@.len()
            &&& post.clients@[holder].username@ == params.username@
            &&& post.clients@ == pre.clients@.update(
                holder,
                Client {
                    socket: Some(socket),
                    username: post.clients@[holder].username,
                    ..before
                },
            )
            &&& effects == (if before.socket is Some {
                seq![
                    EffectView::Close {
                        socket: before.socket->0,
                        code: CLOSE_ABNORMAL,
                        reason: "connected on another client?"@,
                    },
                ]
            } else {
                Seq::empty()
            }) + seq![
                EffectView::Send {
                    to: sockets(post.clients@),
                    message: ServerMessageView::ConnectionUpdate {
                        uuid,
                        state: ConnectionUpdateView::Reconnected { username: params.username@ },
                    },
                },
                told,
            ]
        } else {
            &&& uuid == first_free(ids_of(pre.clients@), fresh, 0)
            &&& !has_client(pre.clients@, uuid)
            &&& post.owner == if pre.clients@.len() == 0 {
                uuid
            } else {
                pre.owner
            }
            &&& post.clients@.len() == pre.clients@.len() + 1
            &&& post.clients@.last().username@ == params.username@
            &&& post.clients@ == pre.clients@.push(
                Client {
                    uuid,
                    socket: Some(socket),
                    username: post.clients@.last().username,
                    rejoin_token: None,
                },
            )
            &&& effects == seq![
                EffectView::Send {
                    to: sockets(post.clients@),
                    message: ServerMessageView::ConnectionUpdate {
                        uuid,
                        state: ConnectionUpdateView::Connected { username: params.username@ },
                    },
                },
                told,
            ]
        }
    }

    /// A connection joins the room. `fresh` is the identity for a new client.
    pub fn add_client(&mut self, params: Params, socket_uuid: u128, fresh: u128) -> (r: (
        u128,
        Vec<Effect>,
    ))
        requires
            old(self).wf(),
        ensures
            Self::joined(*old(self), *final(self), params, socket_uuid, fresh, r.0, r.1.deep_view()),
            final(self).wf(),
    {
        let mut effects: Vec<Effect> = Vec::new();
        let prev = match params.rejoin_token {
            Some(token) => find_holder(&self.clients, token),
            None => None,
        };
        let ghost before = self.clients@;
        let (uuid, update) = match prev {
            Some(holder) => {
                match self.clients[holder].socket {
                    Some(previous) => {
                        effects.push(
                            Effect::Close {
                                socket: previous,
                                code: CLOSE_ABNORMAL,
                                reason: "connected on another client?".to_owned(),
                            },
                        );
                    },
                    None => {},
                }
                self.clients[holder].socket = Some(socket_uuid);
                self.clients[holder].username = params.username.clone();
                proof {
                    assert(self.clients@ =~= before.update(
                        holder as int,
                        Client {
                            socket: Some(socket_uuid),
                            username: self.clients@[holder as int].username,
                            ..before[holder as int]
                        },
                    ));
                    assert forall|id: u128| slot_of(self.clients@, id) == slot_of(before, id) by {
                        lemma_same_ids(self.clients@, before, id);
                    }
                    assert(any_connected(self.clients@)) by {
                        assert(self.clients@[holder as int].socket is Some);
                    }
                }
                (
                    self.clients[holder].uuid,
                    ConnectionUpdate::Reconnected { username: params.username.clone() },
                )
            },
            None => {
                let taken = client_ids(&self.clients);
                let uuid = pick_free(&taken, fresh);
                if self.clients.len() == 0 {
                    self.owner = uuid;
                }
                let client = Client {
                    socket: Some(socket_uuid),
                    uuid,
                    username: params.username.clone(),
                    rejoin_token: None,
                };
                self.clients.push(client);
                proof {
                    let after = self.clients@;
                    assert(after.drop_last() =~= before);
                    assert(after[after.len() - 1].socket is Some);
                    lemma_has_client_iff(before, uuid);
                    assert forall|i: int| 0 <= i < before.len() implies (#[trigger] before[i]).uuid
                        != uuid by {
                        assert(taken@[i] == before[i].uuid);
                    }
                    assert forall|id: u128| has_client(before, id) implies has_client(
                        after,
                        id,
                    ) by {
                        lemma_has_client_iff(before, id);
                        let o = choose|o: int|
                            0 <= o < before.len() && (#[trigger] before[o]).uuid == id;
                        assert(after[o].uuid == id);
                        lemma_has_client_iff(after, id);
                    }
                    if before.len() > 0 {
                        lemma_has_client_iff(before, old(self).owner);
                        let o = choose|o: int|
                            0 <= o < before.len() && (#[trigger] before[o]).uuid == old(
                                self,
                            ).owner;
                        assert(after[o].uuid == old(self).owner);
                        lemma_has_client_iff(after, old(self).owner);
                    } else {
                        lemma_has_client(after, 0);
                    }
                }
                (uuid, ConnectionUpdate::Connected { username: params.username.clone() })
            },
        };
        let ghost closes = effects.deep_view();
        let told_all = broadcast(
            &self.clients,
            ServerMessage::ConnectionUpdate { uuid, state: update },
        );
        let mut to: Vec<u128> = Vec::new();
        to.push(socket_uuid);
        assert(to@ =~= seq![socket_uuid]);
        let told = Effect::Send {
            to,
            message: ServerMessage::Info {
                uuid,
                room: RoomInfo {
                    owner: self.owner,
                    settings: self.settings,
                    clients: client_infos(&self.clients),
                    state: room_state_info(&self.state, uuid),
                },
            },
        };
        effects.push(told_all);
        effects.push(told);
        proof {
            assert(effects.deep_view() =~= closes + seq![told_all.deep_view(), told.deep_view()]);
            if closes.len() == 1 {
                assert(closes =~= seq![closes[0]]);
            } else {
                assert(closes =~= Seq::<EffectView>::empty());
            }
        }
        (uuid, effects)
    }

    /// What a disconnect does, where it is the client's current socket that
    /// went away. The client loses its socket. If no client is connected
    /// any more, the room is to be closed, and the task that its state waits
    /// for is cancelled. Otherwise, in the lobby, the client leaves the room
    /// and the ready players, which may stop the countdown, and the room gets
    /// a new owner if it has lost its own; during a game the client stays,
    /// to come back later. The others are told.
    pub open spec fn left(
        pre: Room,
        post: Room,
        uuid: u128,
        room: Seq<char>,
        task: u64,
        closed: bool,
        effects: Seq<EffectView>,
    ) -> bool {
        let slot = slot_of(pre.clients@, uuid);
        let retained = pre.clients@.update(slot, Client { socket: None, ..pre.clients@[slot] });
        &&& post.settings == pre.settings
        &&& closed == !any_connected(retained)
        &&& if closed {
            &&& post.clients@ == retained
            &&& post.state == pre.state
            &&& post.owner == pre.owner
            &&& effects == match pre.state.pending() {
                Some(handle) => seq![EffectView::Abort { handle }],
                None => Seq::empty(),
            }
        } else if pre.state is Lobby {
            let lobby = pre.state->Lobby_0;
            let after = post.state->Lobby_0;
            let was_ready = lobby.ready@.contains(uuid);
            let gone = EffectView::Send {
                to: sockets(post.clients@),
                message: ServerMessageView::ConnectionUpdate {
                    uuid,
                    state: ConnectionUpdateView::Disconnected {
                        new_room_owner: if has_client(post.clients@, pre.owner) {
                            None
                        } else {
                            Some(post.owner)
                        },
                    },
                },
            };
            &&& post.clients@ == retained.remove(slot)
            &&& has_client(post.clients@, post.owner)
            &&& has_client(post.clients@, pre.owner) ==> post.owner == pre.owner
            &&& post.state is Lobby
            &&& after.ready@ == lobby.ready@.remove_value(uuid)
            &&& if was_ready {
                &&& after.countdown == crate::lobby::next_countdown(
                    after.ready@.len(),
                    lobby.countdown,
                    task,
                )
                &&& effects == crate::lobby::countdown_effects(
                    after.ready@.len(),
                    lobby.countdown,
                    room,
                    task,
                ) + seq![
                    EffectView::Send {
                        to: sockets(post.clients@),
                        message: ServerMessageView::ReadyPlayers {
                            ready: after.ready@,
                            countdown_update: crate::lobby::countdown_change(
                                after.ready@.len(),
                                lobby.countdown,
                            ),
                        },
                    },
                    gone,
                ]
            } else {
                after.countdown == lobby.countdown && effects == seq![gone]
            }
        } else {
            &&& post.clients@ == retained
            &&& post.state == pre.state
            &&& post.owner == pre.owner
            &&& effects == seq![
                EffectView::Send {
                    to: sockets(post.clients@),
                    message: ServerMessageView::ConnectionUpdate {
                        uuid,
                        state: ConnectionUpdateView::Disconnected { new_room_owner: None },
                    },
                },
            ]
        }
    }

    /// What a disconnect does: it fails, and changes nothing, where the
    /// client is not in the room or has another socket by now.
    pub open spec fn leave_step(
        pre: Room,
        post: Room,
        uuid: u128,
        socket_id: u128,
        room: Seq<char>,
        task: u64,
        r: Result<(bool, Vec<Effect>), GameError>,
    ) -> bool {
        if !has_client(pre.clients@, uuid) {
            r == Err::<(bool, Vec<Effect>), GameError>(
                GameError::Room(RoomError::CouldntFindClientToRemove),
            ) && post == pre
        } else if pre.clients@[slot_of(pre.clients@, uuid)].socket != Some(socket_id) {
            r == Err::<(bool, Vec<Effect>), GameError>(
                GameError::Room(RoomError::SocketUuidMismatchWhileRemoving),
            ) && post == pre
        } else {
            r is Ok && Self::left(pre, post, uuid, room, task, r->Ok_0.0, r->Ok_0.1.deep_view())
        }
    }

    /// A connection of a client went away. The first part of the result says
    /// whether the room is to be closed. `task` is the handle for a task,
    /// should one be started.
    pub fn remove_client(&mut self, uuid: u128, socket_id: u128, room: &str, task: u64) -> (r: Result<
        (bool, Vec<Effect>),
        GameError,
    >)
        requires
            old(self).wf(),
        ensures
            Self::leave_step(*old(self), *final(self), uuid, socket_id, room@, task, r),
            r is Ok && !r->Ok_0.0 ==> final(self).wf(),
            tokens_unique(final(self).clients@),
    {
        let slot = match find_client(&self.clients, uuid) {
            Some(slot) => slot,
            None => {
                return Err(GameError::Room(crate::error::RoomError::CouldntFindClientToRemove));
            },
        };
        let current = match self.clients[slot].socket {
            Some(socket) => socket == socket_id,
            None => false,
        };
        if !current {
            return Err(GameError::Room(crate::error::RoomError::SocketUuidMismatchWhileRemoving));
        }
        let ghost before = self.clients@;
        self.clients[slot].socket = None;
        let ghost retained = self.clients@;
        proof {
            assert(retained =~= before.update(
                slot as int,
                Client { socket: None, ..before[slot as int] },
            ));
            assert forall|id: u128| slot_of(retained, id) == slot_of(before, id) by {
                lemma_same_ids(retained, before, id);
            }
        }
        let mut effects: Vec<Effect> = Vec::new();
        if !crate::clients::some_connected(&self.clients) {
            match &self.state {
                State::Lobby(lobby) => {
                    match lobby.countdown {
                        Some(countdown) => {
                            effects.push(Effect::Abort { handle: countdown.timer_handle });
                        },
                        None => {},
                    }
                },
                State::WordBomb(game) => {
                    effects.push(Effect::Abort { handle: game.timer.task });
                },
                State::Anagrams(game) => {
                    effects.push(Effect::Abort { handle: game.timer });
                },
            }
            proof {
                let views = effects.deep_view();
                if views.len() == 1 {
                    assert(views =~= seq![views[0]]);
                } else {
                    assert(views =~= Seq::<EffectView>::empty());
                }
            }
            return Ok((true, effects));
        }
        proof {
            let c = choose|c: int| 0 <= c < retained.len() && (#[trigger] retained[c]).socket is Some;
            assert(c != slot);
        }
        match &mut self.state {
            State::Lobby(lobby) => {
                self.clients.remove(slot);
                let ghost staying = self.clients@;
                proof {
                    assert(staying =~= retained.remove(slot as int));
                    assert forall|i: int, j: int| 0 <= i < j < staying.len() implies (
                    #[trigger] staying[i]).uuid != (#[trigger] staying[j]).uuid by {
                        let i0 = if i < slot { i } else { i + 1 };
                        let j0 = if j < slot { j } else { j + 1 };
                        assert(before[i0].uuid != before[j0].uuid);
                    }
                    assert forall|i: int| 0 <= i < staying.len() implies (
                    #[trigger] staying[i]).socket is Some && staying[i].rejoin_token is None by {
                        let i0 = if i < slot { i } else { i + 1 };
                        assert(before[i0].socket is Some);
                    }
                    assert(all_connected(staying));
                    assert(staying[0].socket is Some);
                    assert forall|id: u128| id != uuid && has_client(before, id) implies has_client(
                        staying,
                        id,
                    ) by {
                        lemma_has_client_iff(before, id);
                        let o = choose|o: int|
                            0 <= o < before.len() && (#[trigger] before[o]).uuid == id;
                        let o1 = if o < slot { o } else { o - 1 };
                        assert(staying[o1].uuid == id);
                        lemma_has_client_iff(staying, id);
                    }
                }
                let ghost ready_before = lobby.ready@;
                let ghost mut shown: Option<crate::messages::CountdownState> = None;
                let ghost mut timed: Seq<EffectView> = Seq::empty();
                let ghost mut listed: EffectView = EffectView::Abort { handle: 0 };
                match lobby.find_ready(uuid) {
                    Some(k) => {
                        lobby.ready.remove(k);
                        proof {
                            ready_before.index_of_first_ensures(uuid);
                            assert(ready_before.contains(uuid));
                            let first = ready_before.index_of(uuid);
                            assert(ready_before[first] == uuid);
                            assert(first == k) by {
                                if first != k {
                                    assert(ready_before[first] == ready_before[k as int]);
                                }
                            }
                            assert(lobby.ready@ =~= ready_before.remove_value(uuid));
                            assert(lobby.ready@.no_duplicates()) by {
                                assert forall|i: int, j: int|
                                    0 <= i < lobby.ready@.len() && 0 <= j < lobby.ready@.len()
                                        && i != j implies lobby.ready@[i] != lobby.ready@[j] by {
                                    let i0 = if i < k { i } else { i + 1 };
                                    let j0 = if j < k { j } else { j + 1 };
                                    assert(ready_before[i0] != ready_before[j0]);
                                }
                            }
                        }
                        let ghost unchecked = *lobby;
                        let (update, timers) = crate::lobby::check_for_countdown_update(
                            lobby,
                            room,
                            task,
                        );
                        let ghost timer_views = timers.deep_view();
                        proof {
                            assert(unchecked == (Lobby {
                                ready: lobby.ready,
                                ..old(self).state->Lobby_0
                            }));
                            assert(crate::lobby::countdown_updated(
                                Lobby { ready: lobby.ready, ..old(self).state->Lobby_0 },
                                *lobby,
                                room@,
                                task,
                                update,
                                timer_views,
                            ));
                        }
                        let mut timers = timers;
                        effects.append(&mut timers);
                        let told = broadcast(
                            &self.clients,
                            ServerMessage::ReadyPlayers {
                                ready: copy_ids(&lobby.ready),
                                countdown_update: update,
                            },
                        );
                        effects.push(told);
                        proof {
                            assert(effects.deep_view() =~= timer_views + seq![told.deep_view()]);
                            shown = update;
                            timed = timer_views;
                            listed = told.deep_view();
                        }
                    },
                    None => {
                        proof {
                            assert(lobby.ready@ =~= ready_before.remove_value(uuid)) by {
                                ready_before.index_of_first_ensures(uuid);
                            }
                        }
                    },
                }
                let ghost sofar = effects.deep_view();
                let new_room_owner = crate::lobby::check_for_new_room_owner(
                    &self.clients,
                    &mut self.owner,
                );
                let gone = broadcast(
                    &self.clients,
                    ServerMessage::ConnectionUpdate {
                        uuid,
                        state: ConnectionUpdate::Disconnected { new_room_owner },
                    },
                );
                effects.push(gone);
                proof {
                    assert(effects.deep_view() =~= sofar + seq![gone.deep_view()]);
                    if ready_before.contains(uuid) {
                        let after = self.state->Lobby_0;
                        assert(sofar == timed + seq![listed]);
                        assert(effects.deep_view() =~= timed + seq![listed, gone.deep_view()]);
                        assert(shown == crate::lobby::countdown_change(
                            after.ready@.len(),
                            old(self).state->Lobby_0.countdown,
                        ));
                    } else {
                        assert(effects.deep_view() =~= seq![gone.deep_view()]);
                    }
                }
            },
            _ => {
                let gone = broadcast(
                    &self.clients,
                    ServerMessage::ConnectionUpdate {
                        uuid,
                        state: ConnectionUpdate::Disconnected { new_room_owner: None },
                    },
                );
                effects.push(gone);
                proof {
                    assert(effects.deep_view() =~= seq![gone.deep_view()]);
                    lemma_has_client_iff(before, old(self).owner);
                    let o = choose|o: int|
                        0 <= o < before.len() && (#[trigger] before[o]).uuid == old(self).owner;
                    assert(retained[o].uuid == old(self).owner);
                    lemma_has_client_iff(retained, old(self).owner);
                }
            },
        }
        Ok((false, effects))
    }

    /// A ping is answered to its sender alone, with the same timestamp.
    pub fn client_ping(&self, uuid: u128, timestamp: u64) -> (r: Vec<Effect>)
        ensures
            r.deep_view() == seq![
                EffectView::Send {
                    to: socket_of(self.clients@, uuid),
                    message: ServerMessageView::Pong { timestamp },
                },
            ],
    {
        only(send_to(&self.clients, uuid, ServerMessage::Pong { timestamp }))
    }

    /// The text of a chat message as the room passes it on: censored in a
    /// public room, as it came in a private one.
    pub open spec fn chat_text(&self, content: Seq<char>) -> Seq<char> {
        if self.settings.public {
            censored(content)
        } else {
            content
        }
    }

    /// What a chat message does: one of more than 250 bytes is refused;
    /// another goes to everybody.
    pub open spec fn chat_step(&self, uuid: u128, content: Seq<char>, r: Result<
        Vec<Effect>,
        GameError,
    >) -> bool {
        if byte_len(content) > MAX_CHAT {
            r == Err::<Vec<Effect>, GameError>(GameError::Room(RoomError::ChatMessageTooLong))
        } else {
            r is Ok && r->Ok_0.deep_view() == seq![
                EffectView::Send {
                    to: sockets(self.clients@),
                    message: ServerMessageView::ChatMessage {
                        author: uuid,
                        content: self.chat_text(content),
                    },
                },
            ]
        }
    }

    /// A chat message from a client.
    pub fn client_chat_message(&self, uuid: u128, content: String) -> (r: Result<
        Vec<Effect>,
        GameError,
    >)
        ensures
            self.chat_step(uuid, content@, r),
    {
        if byte_length(content.as_str()) > MAX_CHAT {
            return Err(GameError::Room(RoomError::ChatMessageTooLong));
        }
        let content = if self.settings.public {
            censor(content.as_str())
        } else {
            content
        };
        Ok(only(broadcast(&self.clients, ServerMessage::ChatMessage { author: uuid, content })))
    }

    /// The sender is told of an error.
    pub fn send_error_msg(&self, uuid: u128, message: &str) -> (r: Vec<Effect>)
        ensures
            r.deep_view() == seq![
                EffectView::Send {
                    to: socket_of(self.clients@, uuid),
                    message: ServerMessageView::Error { content: "server error: "@ + message@ },
                },
            ],
    {
        let mut content = "server error: ".to_owned();
        content.append(message);
        only(send_to(&self.clients, uuid, ServerMessage::Error { content }))
    }

    /// What may stand in a practice set: for Word Bomb a prompt of the pool
    /// for the room's threshold, for Anagrams the letters of a six-byte word
    /// of the dictionary in some order.
    pub open spec fn practice_item(&self, game: Games, item: Seq<char>, global: &GlobalData) -> bool {
        match game {
            Games::WordBomb => global.prompts.pool(self.settings.word_bomb.min_wpm).contains(item),
            Games::Anagrams => exists|word: Seq<char>| #[trigger]
                global.has_word(word) && byte_len(word) == 6 && item.to_multiset()
                    == word.to_multiset(),
        }
    }

    /// A practice set: fifty items of the kind that the game asks for.
    pub open spec fn practice_set(&self, game: Games, set: Seq<Seq<char>>, global: &GlobalData) -> bool {
        set.len() == PRACTICE_SET && forall|i: int|
            0 <= i < set.len() ==> self.practice_item(game, #[trigger] set[i], global)
    }

    /// The sender asks for a set to practise with, and is sent fifty prompts
    /// or fifty anagrams, each drawn at random.
    pub fn client_practice_request(&self, uuid: u128, game: Games, global: &GlobalData) -> (r: Vec<
        Effect,
    >)
        requires
            global.playable(),
        ensures
            exists|set: Seq<Seq<char>>| #[trigger]
                self.practice_set(game, set, global) && r.deep_view() == seq![
                    EffectView::Send {
                        to: socket_of(self.clients@, uuid),
                        message: ServerMessageView::PracticeSet { set },
                    },
                ],
    {
        let mut set: Vec<String> = Vec::new();
        while set.len() < PRACTICE_SET
            invariant
                set@.len() <= PRACTICE_SET,
                global.playable(),
                forall|i: int|
                    0 <= i < set@.len() ==> self.practice_item(game, (#[trigger] set@[i])@, global),
            decreases PRACTICE_SET - set@.len(),
        {
            let item = match game {
                Games::WordBomb => global.prompts.random_prompt(
                    self.settings.word_bomb.min_wpm,
                ).to_owned(),
                Games::Anagrams => {
                    let drawn = global.random_anagram();
                    assert(global.has_word(drawn.0@));
                    drawn.1
                },
            };
            set.push(item);
        }
        proof {
            let views = set.deep_view();
            assert forall|i: int| 0 <= i < views.len() implies self.practice_item(
                game,
                #[trigger] views[i],
                global,
            ) by {
                assert(views[i] == set@[i]@);
            }
            assert(self.practice_set(game, views, global));
        }
        only(send_to(&self.clients, uuid, ServerMessage::PracticeSet { set }))
    }

    /// Whether a practice answer is right, by the rules of the game: for
    /// Word Bomb it contains the prompt and is in the dictionary; for
    /// Anagrams it is long enough, made of the anagram's letters, and in the
    /// dictionary.
    pub open spec fn practice_correct(
        game: Games,
        prompt: Seq<char>,
        input: Seq<char>,
        global: &GlobalData,
    ) -> bool {
        match game {
            Games::WordBomb => contains_text(input, prompt) && global.has_word(input),
            Games::Anagrams => byte_len(input) >= anagrams::MIN_GUESS && drawable(input, prompt)
                && global.has_word(input),
        }
    }

    /// The sender hands in a practice answer and is told whether it is right.
    pub fn client_practice_submission(
        &self,
        uuid: u128,
        game: Games,
        prompt: &str,
        input: &str,
        global: &GlobalData,
    ) -> (r: Vec<Effect>)
        requires
            global.wf(),
        ensures
            r.deep_view() == seq![
                EffectView::Send {
                    to: socket_of(self.clients@, uuid),
                    message: ServerMessageView::PracticeResult {
                        correct: Self::practice_correct(game, prompt@, input@, global),
                    },
                },
            ],
    {
        let correct = match game {
            Games::WordBomb => contains(input, prompt) && global.is_valid(input),
            Games::Anagrams => {
                let word = chars_of(input);
                let pool = chars_of(prompt);
                byte_length(input) >= anagrams::MIN_GUESS && is_drawable(&word, &pool)
                    && global.is_valid(input)
            },
        };
        only(send_to(&self.clients, uuid, ServerMessage::PracticeResult { correct }))
    }
}

} // verus!
