//! What can go wrong while a message is handled.

use vstd::prelude::*;
use vstd::string::StringExecFns;

verus! {

#[derive(Clone, Debug, PartialEq)]
pub enum GameError {
    RoomNotFound { room: String },
    InvalidState { state: &'static str },
    RateLimited,
    Room(RoomError),
    WordBomb(WordBombError),
    Anagrams(AnagramsError),
}

#[derive(Clone, Copy, Debug, PartialEq, Eq, Structural)]
pub enum RoomError {
    ChatMessageTooLong,
    CouldntFindClientToRemove,
    SocketUuidMismatchWhileRemoving,
}

#[derive(Clone, Copy, Debug, PartialEq, Eq, Structural)]
pub enum AnagramsError {
    GuessTooLong,
    PlayerNotFound,
}

#[derive(Clone, Copy, Debug, PartialEq, Eq, Structural)]
pub enum WordBombError {
    InputTooLong,
    GuessTooLong,
    PlayerNotFound,
    OutOfTurn,
    NoPlayersAlive,
}

impl RoomError {
    pub open spec fn text(self) -> Seq<char> {
        match self {
            RoomError::ChatMessageTooLong => "chat message was too long"@,
            RoomError::CouldntFindClientToRemove => "client couldn't be found while removing"@,
            RoomError::SocketUuidMismatchWhileRemoving =>
                "client's socket uuids did not match up while removing"@,
        }
    }

    /// The error in words.
    pub fn message(&self) -> (r: String)
        ensures
            r@ == self.text(),
    {
        match self {
            RoomError::ChatMessageTooLong => "chat message was too long".to_owned(),
            RoomError::CouldntFindClientToRemove =>
                "client couldn't be found while removing".to_owned(),
            RoomError::SocketUuidMismatchWhileRemoving =>
                "client's socket uuids did not match up while removing".to_owned(),
        }
    }
}

impl AnagramsError {
    pub open spec fn text(self) -> Seq<char> {
        match self {
            AnagramsError::GuessTooLong => "player's guess was too long"@,
            AnagramsError::PlayerNotFound => "spectator(?) tried playing"@,
        }
    }

    /// The error in words.
    pub fn message(&self) -> (r: String)
        ensures
            r@ == self.text(),
    {
        match self {
            AnagramsError::GuessTooLong => "player's guess was too long".to_owned(),
            AnagramsError::PlayerNotFound => "spectator(?) tried playing".to_owned(),
        }
    }
}

impl WordBombError {
    pub open spec fn text(self) -> Seq<char> {
        match self {
            WordBombError::InputTooLong => "player's input was too long"@,
            WordBombError::GuessTooLong => "player's guess was too long"@,
            WordBombError::PlayerNotFound => "spectator(?) tried playing"@,
            WordBombError::OutOfTurn => "client tried playing out of turn"@,
            WordBombError::NoPlayersAlive =>
                "can't update turn because nobody/nobody else is alive"@,
        }
    }

    /// The error in words.
    pub fn message(&self) -> (r: String)
        ensures
            r@ == self.text(),
    {
        match self {
            WordBombError::InputTooLong => "player's input was too long".to_owned(),
            WordBombError::GuessTooLong => "player's guess was too long".to_owned(),
            WordBombError::PlayerNotFound => "spectator(?) tried playing".to_owned(),
            WordBombError::OutOfTurn => "client tried playing out of turn".to_owned(),
            WordBombError::NoPlayersAlive =>
                "can't update turn because nobody/nobody else is alive".to_owned(),
        }
    }
}

impl GameError {
    pub open spec fn text(self) -> Seq<char> {
        match self {
            GameError::RoomNotFound { room } => "room `"@ + room@ + "` not found"@,
            GameError::InvalidState { state } => "room was not in state `"@ + state@ + "` "@,
            GameError::RateLimited => "rate limited, you're sending messages too fast"@,
            GameError::Room(e) => e.text(),
            GameError::WordBomb(e) => e.text(),
            GameError::Anagrams(e) => e.text(),
        }
    }

    /// The error in words, as the sender is told.
    pub fn message(&self) -> (r: String)
        ensures
            r@ == self.text(),
    {
        match self {
            GameError::RoomNotFound { room } => {
                let mut out = "room `".to_owned();
                out.append(room.as_str());
                out.append("` not found");
                out
            },
            GameError::InvalidState { state } => {
                let mut out = "room was not in state `".to_owned();
                out.append(state);
                out.append("` ");
                out
            },
            GameError::RateLimited => "rate limited, you're sending messages too fast".to_owned(),
            GameError::Room(e) => e.message(),
            GameError::WordBomb(e) => e.message(),
            GameError::Anagrams(e) => e.message(),
        }
    }
}

} // verus!
