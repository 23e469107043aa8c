use wordbomb::error::{AnagramsError, GameError, RoomError, WordBombError};

#[test]
fn game_errors_in_words() {
    assert_eq!(
        GameError::RoomNotFound { room: "lobby1".to_string() }.message(),
        "room `lobby1` not found"
    );
    assert_eq!(
        GameError::InvalidState { state: "word bomb" }.message(),
        "room was not in state `word bomb` "
    );
    assert_eq!(
        GameError::RateLimited.message(),
        "rate limited, you're sending messages too fast"
    );
}

#[test]
fn room_errors_in_words() {
    assert_eq!(RoomError::ChatMessageTooLong.message(), "chat message was too long");
    assert_eq!(
        RoomError::CouldntFindClientToRemove.message(),
        "client couldn't be found while removing"
    );
    assert_eq!(
        RoomError::SocketUuidMismatchWhileRemoving.message(),
        "client's socket uuids did not match up while removing"
    );
    assert_eq!(
        GameError::Room(RoomError::ChatMessageTooLong).message(),
        "chat message was too long"
    );
}

#[test]
fn word_bomb_errors_in_words() {
    assert_eq!(WordBombError::InputTooLong.message(), "player's input was too long");
    assert_eq!(WordBombError::GuessTooLong.message(), "player's guess was too long");
    assert_eq!(WordBombError::PlayerNotFound.message(), "spectator(?) tried playing");
    assert_eq!(WordBombError::OutOfTurn.message(), "client tried playing out of turn");
    assert_eq!(
        WordBombError::NoPlayersAlive.message(),
        "can't update turn because nobody/nobody else is alive"
    );
    assert_eq!(
        GameError::WordBomb(WordBombError::OutOfTurn).message(),
        "client tried playing out of turn"
    );
}

#[test]
fn anagrams_errors_in_words() {
    assert_eq!(AnagramsError::GuessTooLong.message(), "player's guess was too long");
    assert_eq!(AnagramsError::PlayerNotFound.message(), "spectator(?) tried playing");
    assert_eq!(
        GameError::Anagrams(AnagramsError::GuessTooLong).message(),
        "player's guess was too long"
    );
}
