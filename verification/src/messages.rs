//! The messages that clients send and receive, and the effects that a step
//! of the engine asks its caller to carry out.

use vstd::prelude::*;
use crate::anagrams;
use crate::stats;
use crate::word_bomb;
use crate::word_bomb::WordBombSettings;

verus! {

/// Close code for a connection that was taken over by another one.
pub const CLOSE_ABNORMAL: u16 = 1006;

/// Close code for a connection that is refused.
pub const CLOSE_ERROR: u16 = 1011;

#[derive(Clone, Copy, Debug, PartialEq, Eq, Structural)]
pub enum Games {
    WordBomb,
    Anagrams,
}

#[derive(Clone, Copy, Debug, PartialEq, Eq, Structural)]
pub struct RoomSettings {
    pub game: Games,
    pub public: bool,
    pub word_bomb: WordBombSettings,
}

impl RoomSettings {
    /// The settings that a room starts with.
    pub open spec fn initial() -> RoomSettings {
        RoomSettings {
            public: false,
            game: Games::WordBomb,
            word_bomb: WordBombSettings { min_wpm: 500 },
        }
    }
}

impl Default for RoomSettings {
    fn default() -> (r: Self)
        ensures
            r == RoomSettings::initial(),
    {
        Self { public: false, game: Games::WordBomb, word_bomb: WordBombSettings { min_wpm: 500 } }
    }
}

#[derive(Clone, Debug, PartialEq)]
pub enum ClientMessage {
    Ping { timestamp: u64 },
    Ready,
    StartEarly,
    Unready,
    PracticeRequest { game: Games },
    PracticeSubmission { game: Games, prompt: String, input: String },
    RoomSettings(RoomSettings),
    ChatMessage { content: String },
    WordBombInput { input: String },
    WordBombGuess { word: String },
    AnagramsGuess { word: String },
}

#[derive(Clone, Copy, Debug, PartialEq, Eq, Structural)]
pub enum CountdownState {
    InProgress { time_left: u8 },
    Stopped,
}

#[derive(Clone, Debug, PartialEq)]
pub enum ConnectionUpdate {
    Connected { username: String },
    Reconnected { username: String },
    Disconnected { new_room_owner: Option<u128> },
}

pub enum ConnectionUpdateView {
    Connected { username: Seq<char> },
    Reconnected { username: Seq<char> },
    Disconnected { new_room_owner: Option<u128> },
}

impl DeepView for ConnectionUpdate {
    type V = ConnectionUpdateView;

    open spec fn deep_view(&self) -> ConnectionUpdateView {
        match self {
            ConnectionUpdate::Connected { username } => ConnectionUpdateView::Connected {
                username: username@,
            },
            ConnectionUpdate::Reconnected { username } => ConnectionUpdateView::Reconnected {
                username: username@,
            },
            ConnectionUpdate::Disconnected { new_room_owner } => ConnectionUpdateView::Disconnected {
                new_room_owner: *new_room_owner,
            },
        }
    }
}

#[derive(Clone, Debug, PartialEq)]
pub struct ClientInfo {
    pub uuid: u128,
    pub username: String,
    pub disconnected: bool,
}

pub struct ClientInfoView {
    pub uuid: u128,
    pub username: Seq<char>,
    pub disconnected: bool,
}

impl DeepView for ClientInfo {
    type V = ClientInfoView;

    open spec fn deep_view(&self) -> ClientInfoView {
        ClientInfoView {
            uuid: self.uuid,
            username: self.username@,
            disconnected: self.disconnected,
        }
    }
}

/// A room's state as a client is told of it.
#[derive(Clone, Debug, PartialEq)]
#[allow(inconsistent_fields)]
pub enum RoomStateInfo {
    Lobby { ready: Vec<u128>, starting_countdown: Option<u8> },
    WordBomb {
        players: Vec<word_bomb::Player>,
        turn: u128,
        prompt: String,
        /// The receiving player's own letters; absent for others.
        used_letters: Option<Vec<char>>,
    },
    Anagrams { players: Vec<anagrams::Player>, anagram: String },
}

#[allow(inconsistent_fields)]
pub enum RoomStateInfoView {
    Lobby { ready: Seq<u128>, starting_countdown: Option<u8> },
    WordBomb {
        players: Seq<word_bomb::PlayerView>,
        turn: u128,
        prompt: Seq<char>,
        used_letters: Option<Seq<char>>,
    },
    Anagrams { players: Seq<anagrams::PlayerView>, anagram: Seq<char> },
}

impl DeepView for RoomStateInfo {
    type V = RoomStateInfoView;

    open spec fn deep_view(&self) -> RoomStateInfoView {
        match self {
            RoomStateInfo::Lobby { ready, starting_countdown } => RoomStateInfoView::Lobby {
                ready: ready@,
                starting_countdown: *starting_countdown,
            },
            RoomStateInfo::WordBomb {
                players,
                turn,
                prompt,
                used_letters,
            } => RoomStateInfoView::WordBomb {
                players: players.deep_view(),
                turn: *turn,
                prompt: prompt@,
                used_letters: match used_letters {
                    Some(letters) => Some(letters@),
                    None => None,
                },
            },
            RoomStateInfo::Anagrams { players, anagram } => RoomStateInfoView::Anagrams {
                players: players.deep_view(),
                anagram: anagram@,
            },
        }
    }
}

/// A copy of the identities.
pub(crate) fn copy_ids(ids: &Vec<u128>) -> (r: Vec<u128>)
    ensures
        r@ == ids@,
{
    let mut out: Vec<u128> = Vec::new();
    let mut i: usize = 0;
    while i < ids.len()
        invariant
            i <= ids@.len(),
            out@ == ids@.subrange(0, i as int),
        decreases ids@.len() - i,
    {
        out.push(ids[i]);
        i += 1;
        assert(out@ =~= ids@.subrange(0, i as int));
    }
    assert(ids@.subrange(0, i as int) =~= ids@);
    out
}

impl RoomStateInfo {
    /// A copy of the description.
    pub fn duplicate(&self) -> (r: RoomStateInfo)
        ensures
            r.deep_view() == self.deep_view(),
    {
        match self {
            RoomStateInfo::Lobby { ready, starting_countdown } => RoomStateInfo::Lobby {
                ready: copy_ids(ready),
                starting_countdown: *starting_countdown,
            },
            RoomStateInfo::WordBomb { players, turn, prompt, used_letters } => RoomStateInfo::WordBomb {
                players: word_bomb::copy_players(players),
                turn: *turn,
                prompt: prompt.clone(),
                used_letters: match used_letters {
                    Some(letters) => Some(word_bomb::copy_chars(letters)),
                    None => None,
                },
            },
            RoomStateInfo::Anagrams { players, anagram } => RoomStateInfo::Anagrams {
                players: anagrams::copy_players(players),
                anagram: anagram.clone(),
            },
        }
    }
}

#[derive(Clone, Debug, PartialEq)]
pub struct RoomInfo {
    pub owner: u128,
    pub settings: RoomSettings,
    pub clients: Vec<ClientInfo>,
    pub state: RoomStateInfo,
}

pub struct RoomInfoView {
    pub owner: u128,
    pub settings: RoomSettings,
    pub clients: Seq<ClientInfoView>,
    pub state: RoomStateInfoView,
}

impl DeepView for RoomInfo {
    type V = RoomInfoView;

    open spec fn deep_view(&self) -> RoomInfoView {
        RoomInfoView {
            owner: self.owner,
            settings: self.settings,
            clients: self.clients.deep_view(),
            state: self.state.deep_view(),
        }
    }
}

#[derive(Clone, Debug, PartialEq)]
pub enum PostGameInfo {
    WordBomb(stats::PostGameInfo),
    Anagrams(anagrams::PostGameInfo),
}

pub enum PostGameInfoView {
    WordBomb(stats::PostGameInfoView),
    Anagrams(anagrams::PostGameInfoView),
}

impl DeepView for PostGameInfo {
    type V = PostGameInfoView;

    open spec fn deep_view(&self) -> PostGameInfoView {
        match self {
            PostGameInfo::WordBomb(info) => PostGameInfoView::WordBomb(info.deep_view()),
            PostGameInfo::Anagrams(info) => PostGameInfoView::Anagrams(info.deep_view()),
        }
    }
}

#[derive(Clone, Debug, PartialEq)]
#[allow(inconsistent_fields)]
pub enum ServerMessage {
    Info { uuid: u128, room: RoomInfo },
    Error { content: String },
    Pong { timestamp: u64 },
    RoomSettings(RoomSettings),
    ChatMessage { author: u128, content: String },
    ConnectionUpdate { uuid: u128, state: ConnectionUpdate },
    ReadyPlayers { ready: Vec<u128>, countdown_update: Option<CountdownState> },
    StartingCountdown { time_left: u8 },
    GameStarted { rejoin_token: Option<u128>, game: RoomStateInfo },
    GameEnded { new_room_owner: Option<u128>, info: PostGameInfo },
    PracticeSet { set: Vec<String> },
    PracticeResult { correct: bool },
    WordBombInput { uuid: u128, input: String },
    WordBombInvalidGuess { uuid: u128, reason: word_bomb::GuessInfo },
    WordBombPrompt { correct_guess: Option<String>, life_change: i8, prompt: String, turn: u128 },
    AnagramsInvalidGuess { reason: anagrams::GuessInfo },
    AnagramsCorrectGuess { uuid: u128, guess: String },
}

#[allow(inconsistent_fields)]
pub enum ServerMessageView {
    Info { uuid: u128, room: RoomInfoView },
    Error { content: Seq<char> },
    Pong { timestamp: u64 },
    RoomSettings(RoomSettings),
    ChatMessage { author: u128, content: Seq<char> },
    ConnectionUpdate { uuid: u128, state: ConnectionUpdateView },
    ReadyPlayers { ready: Seq<u128>, countdown_update: Option<CountdownState> },
    StartingCountdown { time_left: u8 },
    GameStarted { rejoin_token: Option<u128>, game: RoomStateInfoView },
    GameEnded { new_room_owner: Option<u128>, info: PostGameInfoView },
    PracticeSet { set: Seq<Seq<char>> },
    PracticeResult { correct: bool },
    WordBombInput { uuid: u128, input: Seq<char> },
    WordBombInvalidGuess { uuid: u128, reason: word_bomb::GuessInfo },
    WordBombPrompt { correct_guess: Option<Seq<char>>, life_change: i8, prompt: Seq<char>, turn: u128 },
    AnagramsInvalidGuess { reason: anagrams::GuessInfo },
    AnagramsCorrectGuess { uuid: u128, guess: Seq<char> },
}

impl DeepView for ServerMessage {
    type V = ServerMessageView;

    open spec fn deep_view(&self) -> ServerMessageView {
        match self {
            ServerMessage::Info { uuid, room } => ServerMessageView::Info {
                uuid: *uuid,
                room: room.deep_view(),
            },
            ServerMessage::Error { content } => ServerMessageView::Error { content: content@ },
            ServerMessage::Pong { timestamp } => ServerMessageView::Pong { timestamp: *timestamp },
            ServerMessage::RoomSettings(settings) => ServerMessageView::RoomSettings(*settings),
            ServerMessage::ChatMessage { author, content } => ServerMessageView::ChatMessage {
                author: *author,
                content: content@,
            },
            ServerMessage::ConnectionUpdate { uuid, state } => ServerMessageView::ConnectionUpdate {
                uuid: *uuid,
                state: state.deep_view(),
            },
            ServerMessage::ReadyPlayers { ready, countdown_update } => ServerMessageView::ReadyPlayers {
                ready: ready@,
                countdown_update: *countdown_update,
            },
            ServerMessage::StartingCountdown { time_left } => ServerMessageView::StartingCountdown {
                time_left: *time_left,
            },
            ServerMessage::GameStarted { rejoin_token, game } => ServerMessageView::GameStarted {
                rejoin_token: *rejoin_token,
                game: game.deep_view(),
            },
            ServerMessage::GameEnded { new_room_owner, info } => ServerMessageView::GameEnded {
                new_room_owner: *new_room_owner,
                info: info.deep_view(),
            },
            ServerMessage::PracticeSet { set } => ServerMessageView::PracticeSet {
                set: set.deep_view(),
            },
            ServerMessage::PracticeResult { correct } => ServerMessageView::PracticeResult {
                correct: *correct,
            },
            ServerMessage::WordBombInput { uuid, input } => ServerMessageView::WordBombInput {
                uuid: *uuid,
                input: input@,
            },
            ServerMessage::WordBombInvalidGuess {
                uuid,
                reason,
            } => ServerMessageView::WordBombInvalidGuess { uuid: *uuid, reason: *reason },
            ServerMessage::WordBombPrompt {
                correct_guess,
                life_change,
                prompt,
                turn,
            } => ServerMessageView::WordBombPrompt {
                correct_guess: match correct_guess {
                    Some(word) => Some(word@),
                    None => None,
                },
                life_change: *life_change,
                prompt: prompt@,
                turn: *turn,
            },
            ServerMessage::AnagramsInvalidGuess {
                reason,
            } => ServerMessageView::AnagramsInvalidGuess { reason: *reason },
            ServerMessage::AnagramsCorrectGuess {
                uuid,
                guess,
            } => ServerMessageView::AnagramsCorrectGuess { uuid: *uuid, guess: guess@ },
        }
    }
}

/// Work that is put off: what the caller runs once the time has passed.
#[derive(Clone, Debug, PartialEq)]
pub enum Task {
    /// One second on, hand the room a countdown tick; up to ten times.
    Countdown { room: String },
    /// `timer_len` milliseconds on, tell the room that the turn timed out,
    /// naming the prompt that the timer was started for.
    WordBombTimer { room: String, timer_len: u64, prompt: String },
    /// Thirty seconds on, end the room's game of Anagrams.
    AnagramsTimer { room: String },
}

pub enum TaskView {
    Countdown { room: Seq<char> },
    WordBombTimer { room: Seq<char>, timer_len: u64, prompt: Seq<char> },
    AnagramsTimer { room: Seq<char> },
}

impl DeepView for Task {
    type V = TaskView;

    open spec fn deep_view(&self) -> TaskView {
        match self {
            Task::Countdown { room } => TaskView::Countdown { room: room@ },
            Task::WordBombTimer { room, timer_len, prompt } => TaskView::WordBombTimer {
                room: room@,
                timer_len: *timer_len,
                prompt: prompt@,
            },
            Task::AnagramsTimer { room } => TaskView::AnagramsTimer { room: room@ },
        }
    }
}

/// What a step asks its caller to do, in this order.
#[derive(Clone, Debug, PartialEq)]
pub enum Effect {
    /// Queue the message for each of the sockets.
    Send { to: Vec<u128>, message: ServerMessage },
    /// Send the socket a close frame.
    Close { socket: u128, code: u16, reason: String },
    /// Start the task and keep it under the handle.
    Spawn { handle: u64, task: Task },
    /// Cancel the task with the handle. Cancelling twice does no harm.
    Abort { handle: u64 },
}

pub enum EffectView {
    Send { to: Seq<u128>, message: ServerMessageView },
    Close { socket: u128, code: u16, reason: Seq<char> },
    Spawn { handle: u64, task: TaskView },
    Abort { handle: u64 },
}

impl DeepView for Effect {
    type V = EffectView;

    open spec fn deep_view(&self) -> EffectView {
        match self {
            Effect::Send { to, message } => EffectView::Send {
                to: to@,
                message: message.deep_view(),
            },
            Effect::Close { socket, code, reason } => EffectView::Close {
                socket: *socket,
                code: *code,
                reason: reason@,
            },
            Effect::Spawn { handle, task } => EffectView::Spawn {
                handle: *handle,
                task: task.deep_view(),
            },
            Effect::Abort { handle } => EffectView::Abort { handle: *handle },
        }
    }
}

/// A list of the one effect.
pub(crate) fn only(effect: Effect) -> (r: Vec<Effect>)
    ensures
        r.deep_view() == seq![effect.deep_view()],
{
    let mut effects: Vec<Effect> = Vec::new();
    effects.push(effect);
    assert(effects.deep_view() =~= seq![effect.deep_view()]);
    effects
}

/// No effects.
pub(crate) fn nothing() -> (r: Vec<Effect>)
    ensures
        r.deep_view() == Seq::<EffectView>::empty(),
{
    let effects: Vec<Effect> = Vec::new();
    assert(effects.deep_view() =~= Seq::<EffectView>::empty());
    effects
}

/// The first effects, then the second.
pub(crate) fn followed_by(first: Vec<Effect>, second: Vec<Effect>) -> (r: Vec<Effect>)
    ensures
        r.deep_view() == first.deep_view() + second.deep_view(),
{
    let mut out = first;
    let mut rest = second;
    let ghost a = out.deep_view();
    let ghost b = rest.deep_view();
    let ghost a0 = out@;
    let ghost b0 = rest@;
    out.append(&mut rest);
    assert(out@ =~= a0 + b0);
    assert(out.deep_view() =~= a + b);
    out
}

} // verus!
