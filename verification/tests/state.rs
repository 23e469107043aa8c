use wordbomb::error::GameError;
use wordbomb::global::GlobalData;
use wordbomb::messages::{
    ClientMessage, ConnectionUpdate, CountdownState, Effect, Games, RoomSettings, RoomStateInfo,
    ServerMessage, Task, CLOSE_ERROR,
};
use wordbomb::room::Params;
use wordbomb::routes::{check_connection, frame_accepted, is_alphanumeric_text, RoomData};
use wordbomb::state::{AppState, SenderInfo};
use wordbomb::word_bomb::WordBombSettings;

const WORDS: &str = "cat\ncater\ndog\nquiz\nrate\nsteam\nstream\nteam\n";

fn server() -> AppState {
    AppState::new(GlobalData::new(WORDS, "5:in,er\n500:at\n"))
}

fn params(name: &str) -> Params {
    Params { username: name.to_string(), rejoin_token: None }
}

fn sender(uuid: u128, room: &str) -> SenderInfo<'_> {
    SenderInfo { uuid, room }
}

fn error_to(socket: u128, text: &str) -> Vec<Effect> {
    vec![Effect::Send {
        to: vec![socket],
        message: ServerMessage::Error { content: format!("server error: {text}") },
    }]
}

#[test]
fn rooms_come_and_go_with_their_clients() {
    let mut state = server();
    assert!(state.room_available("lobby1"));
    let (a, _) = state.add_client("lobby1", params("ann"), 1);
    assert!(!state.room_available("lobby1"));
    assert!(state.room_available("lobby2"));
    let (b, _) = state.add_client("lobby1", params("bob"), 2);
    assert_ne!(a, b);
    assert_eq!(
        state.remove_client(sender(a, "lobby1"), 1),
        Ok(vec![Effect::Send {
            to: vec![2],
            message: ServerMessage::ConnectionUpdate {
                uuid: a,
                state: ConnectionUpdate::Disconnected { new_room_owner: Some(b) },
            },
        }])
    );
    assert!(!state.room_available("lobby1"));
    assert_eq!(state.remove_client(sender(b, "lobby1"), 2), Ok(vec![]));
    assert!(state.room_available("lobby1"));
    assert_eq!(
        state.remove_client(sender(b, "lobby1"), 2),
        Err(GameError::RoomNotFound { room: "lobby1".to_string() })
    );
}

#[test]
fn closing_a_room_cancels_its_timer() {
    let mut state = server();
    let (a, _) = state.add_client("r", params("ann"), 1);
    let (b, _) = state.add_client("r", params("bob"), 2);
    state.client_ready(sender(a, "r")).unwrap();
    state.client_ready(sender(b, "r")).unwrap();
    let started = state.client_start_early(sender(a, "r"), 0).unwrap();
    let handle = match &started[1] {
        Effect::Spawn { handle, .. } => *handle,
        other => panic!("unexpected {:?}", other),
    };
    assert_eq!(state.remove_client(sender(a, "r"), 1).map(|e| e.len()), Ok(1));
    assert!(!state.room_available("r"));
    assert_eq!(state.remove_client(sender(b, "r"), 2), Ok(vec![Effect::Abort { handle }]));
    assert!(state.room_available("r"));
}

#[test]
fn steps_in_a_room_that_is_not_there_fail() {
    let mut state = server();
    let missing = || Err(GameError::RoomNotFound { room: "nope".to_string() });
    assert_eq!(state.client_ping(sender(1, "nope"), 5), missing());
    assert_eq!(state.client_ready(sender(1, "nope")), missing());
    assert_eq!(state.client_unready(sender(1, "nope")), missing());
    assert_eq!(state.client_start_early(sender(1, "nope"), 0), missing());
    assert_eq!(state.client_room_settings(sender(1, "nope"), RoomSettings::default()), missing());
    assert_eq!(state.client_chat_message(sender(1, "nope"), "hi".to_string()), missing());
    assert_eq!(state.word_bomb_input(sender(1, "nope"), "hi".to_string()), missing());
    assert_eq!(state.word_bomb_guess(sender(1, "nope"), "hi".to_string(), 0), missing());
    assert_eq!(state.anagrams_guess(sender(1, "nope"), "hi".to_string()), missing());
    assert_eq!(state.client_practice_request(sender(1, "nope"), Games::WordBomb), missing());
    assert_eq!(
        state.client_practice_submission(sender(1, "nope"), Games::WordBomb, "at", "cat"),
        missing()
    );
    assert_eq!(state.send_error_msg(sender(1, "nope"), "x"), missing());
    assert_eq!(state.start_when_ready("nope", 0), missing());
    assert_eq!(state.word_bomb_timer("nope", "at", 0), missing());
    assert_eq!(state.anagrams_timer("nope"), missing());
    assert!(state.room_available("nope"));
}

#[test]
fn length_limits_come_before_the_room() {
    let mut state = server();
    assert_eq!(
        state.client_chat_message(sender(1, "nope"), "a".repeat(251)).map_err(|e| e.message()),
        Err("chat message was too long".to_string())
    );
    assert_eq!(
        state.word_bomb_input(sender(1, "nope"), "a".repeat(36)).map_err(|e| e.message()),
        Err("player's input was too long".to_string())
    );
    assert_eq!(
        state.word_bomb_guess(sender(1, "nope"), "a".repeat(36), 0).map_err(|e| e.message()),
        Err("player's guess was too long".to_string())
    );
    assert_eq!(
        state.anagrams_guess(sender(1, "nope"), "a".repeat(7)).map_err(|e| e.message()),
        Err("player's guess was too long".to_string())
    );
}

#[test]
fn countdown_happy_path() {
    let mut state = server();
    let (a, _) = state.add_client("lobby1", params("ann"), 1);
    let (b, _) = state.add_client("lobby1", params("bob"), 2);
    let first = state.handle(sender(a, "lobby1"), ClientMessage::Ready, 0);
    assert_eq!(
        first,
        vec![Effect::Send {
            to: vec![1, 2],
            message: ServerMessage::ReadyPlayers { ready: vec![a], countdown_update: None },
        }]
    );
    let second = state.handle(sender(b, "lobby1"), ClientMessage::Ready, 0);
    let handle = match &second[0] {
        Effect::Spawn { handle, task } => {
            assert_eq!(task, &Task::Countdown { room: "lobby1".to_string() });
            *handle
        }
        other => panic!("unexpected {:?}", other),
    };
    assert_eq!(
        second[1],
        Effect::Send {
            to: vec![1, 2],
            message: ServerMessage::ReadyPlayers {
                ready: vec![a, b],
                countdown_update: Some(CountdownState::InProgress { time_left: 10 }),
            },
        }
    );
    assert_eq!(second.len(), 2);
    for left in (1..=9u8).rev() {
        assert_eq!(
            state.start_when_ready("lobby1", 1_000),
            Ok(vec![Effect::Send {
                to: vec![1, 2],
                message: ServerMessage::StartingCountdown { time_left: left },
            }])
        );
    }
    let started = state.start_when_ready("lobby1", 10_000).unwrap();
    assert_eq!(started.len(), 3);
    let timer = match &started[0] {
        Effect::Spawn { handle: timer, task: Task::WordBombTimer { room, timer_len, prompt } } => {
            assert_eq!(room, "lobby1");
            assert!((10_000..=30_000).contains(timer_len));
            assert_eq!(prompt, "at");
            *timer
        }
        other => panic!("unexpected {:?}", other),
    };
    assert_ne!(timer, handle);
    for (socket, effect) in [1u128, 2].iter().zip(&started[1..]) {
        match effect {
            Effect::Send { to, message: ServerMessage::GameStarted { rejoin_token, game } } => {
                assert_eq!(to, &vec![*socket]);
                assert!(rejoin_token.is_some());
                assert!(matches!(game, RoomStateInfo::WordBomb { .. }));
            }
            other => panic!("unexpected {:?}", other),
        }
    }
    assert_eq!(
        state.start_when_ready("lobby1", 11_000),
        Err(GameError::InvalidState { state: "lobby" })
    );
    assert!(started.iter().chain(second.iter()).all(|e| !matches!(e, Effect::Abort { .. })));
}

#[test]
fn handles_of_tasks_differ() {
    let mut state = server();
    let (a, _) = state.add_client("r", params("ann"), 1);
    let (b, _) = state.add_client("r", params("bob"), 2);
    let mut handles = Vec::new();
    for _ in 0..5 {
        state.client_ready(sender(a, "r")).unwrap();
        let effects = state.client_ready(sender(b, "r")).unwrap();
        match &effects[0] {
            Effect::Spawn { handle, .. } => handles.push(*handle),
            other => panic!("unexpected {:?}", other),
        }
        state.client_unready(sender(a, "r")).unwrap();
        state.client_unready(sender(b, "r")).unwrap();
    }
    let mut unique = handles.clone();
    unique.sort();
    unique.dedup();
    assert_eq!(unique.len(), handles.len());
}

#[test]
fn ping_and_chat_through_the_dispatcher() {
    let mut state = server();
    let (a, _) = state.add_client("r", params("ann"), 1);
    let (_b, _) = state.add_client("r", params("bob"), 2);
    assert_eq!(
        state.handle(sender(a, "r"), ClientMessage::Ping { timestamp: 99 }, 0),
        vec![Effect::Send { to: vec![1], message: ServerMessage::Pong { timestamp: 99 } }]
    );
    assert_eq!(
        state.handle(sender(a, "r"), ClientMessage::ChatMessage { content: "hi".to_string() }, 0),
        vec![Effect::Send {
            to: vec![1, 2],
            message: ServerMessage::ChatMessage { author: a, content: "hi".to_string() },
        }]
    );
    assert_eq!(
        state.handle(
            sender(a, "r"),
            ClientMessage::ChatMessage { content: "a".repeat(251) },
            0
        ),
        error_to(1, "chat message was too long")
    );
}

#[test]
fn failures_are_told_to_the_sender_alone() {
    let mut state = server();
    let (a, _) = state.add_client("r", params("ann"), 1);
    let (b, _) = state.add_client("r", params("bob"), 2);
    assert_eq!(
        state.handle(sender(b, "r"), ClientMessage::WordBombGuess { word: "cat".to_string() }, 0),
        error_to(2, "room was not in state `word bomb` ")
    );
    assert_eq!(
        state.handle(sender(a, "r"), ClientMessage::AnagramsGuess { word: "cat".to_string() }, 0),
        error_to(1, "room was not in state `anagrams` ")
    );
    assert_eq!(
        state.handle(sender(a, "r"), ClientMessage::WordBombInput { input: "c".repeat(36) }, 0),
        error_to(1, "player's input was too long")
    );
    assert_eq!(
        state.handle(sender(a, "nope"), ClientMessage::Ready, 0),
        vec![]
    );
    assert_eq!(state.dispatch(sender(a, "r"), ClientMessage::Ready, 0, false),
        error_to(1, "rate limited, you're sending messages too fast"));
    assert_eq!(state.dispatch(sender(a, "nope"), ClientMessage::Ready, 0, false), vec![]);
}

#[test]
fn settings_and_practice_through_the_dispatcher() {
    let mut state = server();
    let (a, _) = state.add_client("r", params("ann"), 1);
    let new = RoomSettings { game: Games::Anagrams, public: true, word_bomb: WordBombSettings { min_wpm: 5 } };
    assert_eq!(
        state.handle(sender(a, "r"), ClientMessage::RoomSettings(new), 0),
        vec![Effect::Send { to: vec![1], message: ServerMessage::RoomSettings(new) }]
    );
    let (_, effects) = state.add_client("r", params("bob"), 2);
    match effects.last() {
        Some(Effect::Send { message: ServerMessage::Info { room, .. }, .. }) => {
            assert_eq!(room.settings, new);
        }
        other => panic!("unexpected {:?}", other),
    }
    match &state.handle(sender(a, "r"), ClientMessage::PracticeRequest { game: Games::WordBomb }, 0)[..] {
        [Effect::Send { to, message: ServerMessage::PracticeSet { set } }] => {
            assert_eq!(to, &vec![1]);
            assert_eq!(set.len(), 50);
            assert!(set.iter().all(|p| ["in", "er", "at"].contains(&p.as_str())));
        }
        other => panic!("unexpected {:?}", other),
    }
    assert_eq!(
        state.handle(
            sender(a, "r"),
            ClientMessage::PracticeSubmission {
                game: Games::WordBomb,
                prompt: "at".to_string(),
                input: "cat".to_string(),
            },
            0
        ),
        vec![Effect::Send { to: vec![1], message: ServerMessage::PracticeResult { correct: true } }]
    );
}

#[test]
fn a_whole_game_of_word_bomb() {
    let mut state = server();
    let (a, _) = state.add_client("r", params("ann"), 1);
    let (b, _) = state.add_client("r", params("bob"), 2);
    state.handle(sender(a, "r"), ClientMessage::Ready, 0);
    state.handle(sender(b, "r"), ClientMessage::Ready, 0);
    let started = state.handle(sender(a, "r"), ClientMessage::StartEarly, 5_000);
    let (first, token) = match &started[2] {
        Effect::Send {
            message: ServerMessage::GameStarted { game: RoomStateInfo::WordBomb { turn, prompt, .. }, rejoin_token },
            ..
        } => {
            assert_eq!(prompt, "at");
            (*turn, rejoin_token.unwrap())
        }
        other => panic!("unexpected {:?}", other),
    };
    let second = if first == a { b } else { a };
    assert_eq!(
        state.handle(sender(second, "r"), ClientMessage::WordBombGuess { word: "cat".to_string() }, 6_000),
        error_to(if second == a { 1 } else { 2 }, "client tried playing out of turn")
    );
    let typed = state.handle(sender(first, "r"), ClientMessage::WordBombInput { input: "ca".to_string() }, 6_000);
    assert_eq!(
        typed,
        vec![Effect::Send {
            to: vec![1, 2],
            message: ServerMessage::WordBombInput { uuid: first, input: "ca".to_string() },
        }]
    );
    let guessed = state.handle(sender(first, "r"), ClientMessage::WordBombGuess { word: "Cat".to_string() }, 7_000);
    match &guessed[0] {
        Effect::Send { to, message: ServerMessage::WordBombPrompt { correct_guess, life_change, prompt, turn } } => {
            assert_eq!(to, &vec![1, 2]);
            assert_eq!(correct_guess, &Some("cat".to_string()));
            assert_eq!(*life_change, 0);
            assert_eq!(prompt, "at");
            assert_eq!(*turn, second);
        }
        other => panic!("unexpected {:?}", other),
    }
    assert!(matches!(guessed[1], Effect::Abort { .. }));
    assert!(matches!(guessed[2], Effect::Spawn { .. }));
    assert_eq!(state.word_bomb_timer("r", "in", 9_000), Ok(vec![]));
    let mut ended = Vec::new();
    for _ in 0..3 {
        ended = state.word_bomb_timer("r", "at", 65_000).unwrap();
    }
    match &ended[..] {
        [Effect::Send { to, message: ServerMessage::GameEnded { new_room_owner, info } }] => {
            assert_eq!(to, &vec![1, 2]);
            assert_eq!(*new_room_owner, None);
            match info {
                wordbomb::messages::PostGameInfo::WordBomb(info) => {
                    assert_eq!(info.winner, first);
                    assert_eq!(info.millis_elapsed, 60_000);
                    assert_eq!(info.words_used, 1);
                    assert_eq!(info.fastest_guesses, vec![(first, 2_000)]);
                    assert_eq!(info.longest_words, vec![(first, "cat".to_string())]);
                }
                other => panic!("unexpected {:?}", other),
            }
        }
        other => panic!("unexpected {:?}", other),
    }
    let (_, effects) = state.add_client("r", Params { username: "x".to_string(), rejoin_token: Some(token) }, 3);
    assert!(matches!(
        &effects[0],
        Effect::Send { message: ServerMessage::ConnectionUpdate { state: ConnectionUpdate::Connected { .. }, .. }, .. }
    ));
    assert_eq!(
        state.word_bomb_timer("r", "at", 70_000),
        Err(GameError::InvalidState { state: "word bomb" })
    );
}

#[test]
fn reconnect_during_a_game() {
    let mut state = server();
    let (a, _) = state.add_client("r", params("ann"), 1);
    let (b, _) = state.add_client("r", params("bob"), 2);
    state.handle(sender(a, "r"), ClientMessage::Ready, 0);
    state.handle(sender(b, "r"), ClientMessage::Ready, 0);
    let started = state.handle(sender(a, "r"), ClientMessage::StartEarly, 5_000);
    let token = match &started[2] {
        Effect::Send { to, message: ServerMessage::GameStarted { rejoin_token, .. } } => {
            assert_eq!(to, &vec![1]);
            rejoin_token.unwrap()
        }
        other => panic!("unexpected {:?}", other),
    };
    assert_eq!(
        state.remove_client(sender(a, "r"), 1),
        Ok(vec![Effect::Send {
            to: vec![2],
            message: ServerMessage::ConnectionUpdate {
                uuid: a,
                state: ConnectionUpdate::Disconnected { new_room_owner: None },
            },
        }])
    );
    let (uuid, effects) =
        state.add_client("r", Params { username: "ann".to_string(), rejoin_token: Some(token) }, 9);
    assert_eq!(uuid, a);
    assert_eq!(effects.len(), 2);
    assert_eq!(
        effects[0],
        Effect::Send {
            to: vec![9, 2],
            message: ServerMessage::ConnectionUpdate {
                uuid: a,
                state: ConnectionUpdate::Reconnected { username: "ann".to_string() },
            },
        }
    );
    match &effects[1] {
        Effect::Send { to, message: ServerMessage::Info { uuid, room } } => {
            assert_eq!(to, &vec![9]);
            assert_eq!(*uuid, a);
            assert!(matches!(&room.state, RoomStateInfo::WordBomb { used_letters: Some(_), .. }));
            assert!(room.clients.iter().all(|c| !c.disconnected));
        }
        other => panic!("unexpected {:?}", other),
    }
    assert_eq!(
        state.remove_client(sender(a, "r"), 1).map_err(|e| e.message()),
        Err("client's socket uuids did not match up while removing".to_string())
    );
}

#[test]
fn a_sender_may_send_twenty_four_messages_at_once() {
    let mut state = server();
    let (a, _) = state.add_client("r", params("ann"), 1);
    let (b, _) = state.add_client("r", params("bob"), 2);
    for i in 0..24u64 {
        assert_eq!(
            state.handle(sender(a, "r"), ClientMessage::Ping { timestamp: i }, 0),
            vec![Effect::Send { to: vec![1], message: ServerMessage::Pong { timestamp: i } }],
            "message {i}"
        );
    }
    assert_eq!(
        state.handle(sender(a, "r"), ClientMessage::Ping { timestamp: 24 }, 0),
        error_to(1, "rate limited, you're sending messages too fast")
    );
    assert_eq!(
        state.handle(sender(b, "r"), ClientMessage::Ping { timestamp: 0 }, 0),
        vec![Effect::Send { to: vec![2], message: ServerMessage::Pong { timestamp: 0 } }]
    );
    let since = std::time::Instant::now();
    while since.elapsed() < std::time::Duration::from_millis(300) {
        std::hint::spin_loop();
    }
    let mut let_through = 0;
    for i in 0..10u64 {
        let effects = state.handle(sender(a, "r"), ClientMessage::Ping { timestamp: i }, 0);
        if matches!(&effects[0], Effect::Send { message: ServerMessage::Pong { .. }, .. }) {
            let_through += 1;
        }
    }
    assert!((2..=4).contains(&let_through), "{let_through}");
}

#[test]
fn names_are_checked_at_the_door() {
    assert_eq!(check_connection("abcdefghijkl", "room12", false), None);
    assert_eq!(
        check_connection("abcdefghijklm", "room12", false),
        Some("username too long (max 12 characters)")
    );
    assert_eq!(check_connection("", "room12", false), Some("username cannot be empty"));
    assert_eq!(
        check_connection("ann", "room123", false),
        Some("invalid room name, must be less than 6 characters")
    );
    assert_eq!(check_connection("ann", "", false), Some("invalid room name, cannot be empty"));
    assert_eq!(
        check_connection("ann", "ro om", false),
        Some("invalid room name, must be alphanumeric")
    );
    assert_eq!(
        check_connection("ann", "röm", false),
        Some("invalid room name, must be alphanumeric")
    );
    assert_eq!(check_connection("ann", "Room1", true), Some("room full"));
    assert_eq!(check_connection("ann", "Room1", false), None);
    assert_eq!(check_connection("a b!", "R", false), None);
    assert_eq!(
        check_connection("éééééé", "r", false),
        None
    );
    assert_eq!(
        check_connection("ééééééé", "r", false),
        Some("username too long (max 12 characters)")
    );
    assert_eq!(
        check_connection("abcdefghijklm", "room123", true),
        Some("username too long (max 12 characters)")
    );
    assert!(is_alphanumeric_text("azAZ09"));
    assert!(is_alphanumeric_text(""));
    assert!(!is_alphanumeric_text("a_b"));
    assert!(!is_alphanumeric_text("a/b"));
}

#[test]
fn ninth_client_is_refused() {
    let mut state = server();
    for socket in 1..=8u128 {
        assert!(!state.room_full("full"));
        let (uuid, effects) = state.ws_handler("full", params("ann"), socket);
        assert!(uuid.is_some());
        assert!(matches!(effects.last(), Some(Effect::Send { message: ServerMessage::Info { .. }, .. })));
    }
    assert!(state.room_full("full"));
    assert_eq!(
        state.ws_handler("full", params("late"), 9),
        (
            None,
            vec![Effect::Close { socket: 9, code: CLOSE_ERROR, reason: "room full".to_string() }]
        )
    );
    assert_eq!(CLOSE_ERROR, 1011);
    assert_eq!(state.info().clients_connected, 8);
    assert!(state.ws_handler("other", params("late"), 9).0.is_some());
    assert!(!state.room_full("nope"));
}

#[test]
fn refused_connection_changes_nothing() {
    let mut state = server();
    assert_eq!(
        state.ws_handler("toolong", params("ann"), 4),
        (
            None,
            vec![Effect::Close {
                socket: 4,
                code: CLOSE_ERROR,
                reason: "invalid room name, must be less than 6 characters".to_string(),
            }]
        )
    );
    assert!(state.room_available("toolong"));
    assert_eq!(
        state.ws_handler("room", params("abcdefghijklm"), 4).1,
        vec![Effect::Close {
            socket: 4,
            code: CLOSE_ERROR,
            reason: "username too long (max 12 characters)".to_string(),
        }]
    );
    assert!(state.room_available("room"));
}

#[test]
fn messages_of_more_than_500_bytes_are_not_looked_at() {
    assert!(frame_accepted(""));
    assert!(frame_accepted(&"a".repeat(500)));
    assert!(!frame_accepted(&"a".repeat(501)));
    assert!(!frame_accepted(&"é".repeat(251)));
    assert!(frame_accepted(&"é".repeat(250)));
}

#[test]
fn public_information() {
    let mut state = server();
    let empty = state.info();
    assert_eq!(empty.clients_connected, 0);
    assert!(empty.public_rooms.is_empty());
    let (a, _) = state.add_client("open", params("ann"), 1);
    state.add_client("open", params("bob"), 2);
    state.add_client("closed", params("cy"), 3);
    let (d, _) = state.add_client("games", params("dee"), 4);
    let public = |game| RoomSettings { game, public: true, word_bomb: WordBombSettings { min_wpm: 500 } };
    state.client_room_settings(sender(a, "open"), public(Games::WordBomb)).unwrap();
    state.client_room_settings(sender(d, "games"), public(Games::Anagrams)).unwrap();
    let info = state.info();
    assert_eq!(info.clients_connected, 4);
    let mut rooms = info.public_rooms.clone();
    rooms.sort_by(|x, y| x.name.cmp(&y.name));
    assert_eq!(
        rooms,
        vec![
            RoomData { name: "games".to_string(), players: vec!["dee".to_string()], game: Games::Anagrams },
            RoomData {
                name: "open".to_string(),
                players: vec!["ann".to_string(), "bob".to_string()],
                game: Games::WordBomb,
            },
        ]
    );
    assert!(!state.room_available("open"));
    assert!(!state.room_available("closed"));
    assert_eq!(state.info().clients_connected, 4);
}
