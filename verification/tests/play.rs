use wordbomb::anagrams;
use wordbomb::clients::Client;
use wordbomb::error::{AnagramsError, GameError, WordBombError};
use wordbomb::global::GlobalData;
use wordbomb::lobby::Lobby;
use wordbomb::messages::{Effect, Games, PostGameInfo, RoomSettings, ServerMessage, Task};
use wordbomb::room::{Room, State};
use wordbomb::word_bomb::{GuessInfo, Player, Timer, WordBomb, WordBombSettings};

const A: u128 = 0xA;
const B: u128 = 0xB;
const C: u128 = 0xC;
const SA: u128 = 0x5A;
const SB: u128 = 0x5B;
const SC: u128 = 0x5C;

const WORDS: &str = "cat\ncater\ndog\nquiz\nrate\nsteam\nstream\nteam\n";

fn global() -> GlobalData {
    GlobalData::new(WORDS, "5:in,er\n")
}

fn client(uuid: u128, socket: Option<u128>, name: &str, token: Option<u128>) -> Client {
    Client { uuid, socket, username: name.to_string(), rejoin_token: token }
}

fn clients() -> Vec<Client> {
    vec![
        client(A, Some(SA), "ann", Some(0x7A)),
        client(B, Some(SB), "bob", Some(0x7B)),
        client(C, Some(SC), "cy", None),
    ]
}

fn settings() -> RoomSettings {
    RoomSettings { game: Games::WordBomb, public: false, word_bomb: WordBombSettings { min_wpm: 5 } }
}

fn bomb(a_lives: u128, b_lives: u128, turn: u128) -> Room {
    let mut a = Player::new(A);
    a.lives = a_lives;
    let mut b = Player::new(B);
    b.lives = b_lives;
    Room {
        owner: A,
        settings: settings(),
        clients: clients(),
        state: State::WordBomb(WordBomb {
            settings: WordBombSettings { min_wpm: 5 },
            started_at: 1_000,
            timer: Timer { task: 7, start: 1_000, length: 20_000 },
            prompt: "at".to_string(),
            prompt_uses: 0,
            missed_prompts: Vec::new(),
            players: vec![a, b],
            turn,
        }),
    }
}

fn game_of(room: &Room) -> &WordBomb {
    match &room.state {
        State::WordBomb(game) => game,
        other => panic!("unexpected {:?}", other),
    }
}

fn scramble() -> Room {
    Room {
        owner: A,
        settings: settings(),
        clients: clients(),
        state: State::Anagrams(anagrams::Anagrams {
            timer: 4,
            anagram: "maerts".to_string(),
            original: "stream".to_string(),
            players: vec![anagrams::Player::new(A), anagrams::Player::new(B)],
        }),
    }
}

#[test]
fn input_of_the_player_whose_turn_it_is_is_shown_to_all() {
    let mut room = bomb(2, 2, A);
    let effects = room.word_bomb_input(A, "ca".to_string()).unwrap();
    assert_eq!(
        effects,
        vec![Effect::Send {
            to: vec![SA, SB, SC],
            message: ServerMessage::WordBombInput { uuid: A, input: "ca".to_string() },
        }]
    );
    assert_eq!(game_of(&room).players[0].input, "ca");
    assert_eq!(game_of(&room).players[1].input, "");
}

#[test]
fn input_is_refused_in_the_right_order() {
    let mut room = bomb(2, 2, A);
    let before = room.clone();
    assert_eq!(
        room.word_bomb_input(C, "x".repeat(36)),
        Err(GameError::WordBomb(WordBombError::InputTooLong))
    );
    assert_eq!(
        room.word_bomb_input(C, "x".repeat(35)),
        Err(GameError::WordBomb(WordBombError::PlayerNotFound))
    );
    assert_eq!(
        room.word_bomb_input(B, "x".to_string()),
        Err(GameError::WordBomb(WordBombError::OutOfTurn))
    );
    assert_eq!(room, before);
    assert!(room.word_bomb_input(A, "x".repeat(35)).is_ok());
    let mut lobby = Room::default();
    assert_eq!(
        lobby.word_bomb_input(A, "x".to_string()),
        Err(GameError::InvalidState { state: "word bomb" })
    );
    assert_eq!(
        lobby.word_bomb_input(A, "x".repeat(36)),
        Err(GameError::WordBomb(WordBombError::InputTooLong))
    );
}

#[test]
fn valid_guess_rotates_the_turn() {
    let mut room = bomb(2, 2, A);
    let effects = room.word_bomb_guess(A, "cat".to_string(), "r", &global(), 6_000, 8).unwrap();
    let game = game_of(&room).clone();
    assert_ne!(game.prompt, "at");
    assert_eq!(game.turn, B);
    assert_eq!(game.players[0].used_words, vec![(5_000, "cat".to_string())]);
    for letter in ['c', 'a', 't'] {
        assert!(game.players[0].used_letters.contains(&letter));
    }
    assert_eq!(game.timer, Timer { task: 8, start: 1_000, length: 15_000 });
    assert_eq!(
        effects,
        vec![
            Effect::Send {
                to: vec![SA, SB, SC],
                message: ServerMessage::WordBombPrompt {
                    correct_guess: Some("cat".to_string()),
                    life_change: 0,
                    prompt: game.prompt.clone(),
                    turn: B,
                },
            },
            Effect::Abort { handle: 7 },
            Effect::Spawn {
                handle: 8,
                task: Task::WordBombTimer {
                    room: "r".to_string(),
                    timer_len: 15_000,
                    prompt: game.prompt.clone(),
                },
            },
        ]
    );
}

#[test]
fn guess_is_normalised_before_it_is_judged() {
    let mut room = bomb(2, 2, A);
    let effects = room.word_bomb_guess(A, " C-a T!9 ".to_string(), "r", &global(), 6_000, 8).unwrap();
    match &effects[0] {
        Effect::Send { message: ServerMessage::WordBombPrompt { correct_guess, .. }, .. } => {
            assert_eq!(correct_guess, &Some("cat".to_string()));
        }
        other => panic!("unexpected {:?}", other),
    }
    assert_eq!(game_of(&room).players[0].used_words[0].1, "cat");
}

#[test]
fn extra_life_is_told() {
    let mut room = bomb(2, 2, A);
    match &mut room.state {
        State::WordBomb(game) => {
            game.prompt = "ui".to_string();
            game.players[0].used_letters =
                ('a'..='z').filter(|c| !['x', 'z', 'q'].contains(c)).collect();
        }
        other => panic!("unexpected {:?}", other),
    }
    let effects = room.word_bomb_guess(A, "quiz".to_string(), "r", &global(), 6_000, 8).unwrap();
    assert_eq!(game_of(&room).players[0].lives, 3);
    assert!(game_of(&room).players[0].used_letters.is_empty());
    match &effects[0] {
        Effect::Send { message: ServerMessage::WordBombPrompt { life_change, correct_guess, turn, .. }, .. } => {
            assert_eq!(*life_change, 1);
            assert_eq!(correct_guess, &Some("quiz".to_string()));
            assert_eq!(*turn, B);
        }
        other => panic!("unexpected {:?}", other),
    }
}

#[test]
fn flawed_guess_is_told_to_all() {
    for (guess, reason) in [
        ("dog", GuessInfo::PromptNotIn),
        ("bat", GuessInfo::NotEnglish),
        ("", GuessInfo::PromptNotIn),
    ] {
        let mut room = bomb(2, 2, A);
        let before = room.clone();
        assert_eq!(
            room.word_bomb_guess(A, guess.to_string(), "r", &global(), 6_000, 8),
            Ok(vec![Effect::Send {
                to: vec![SA, SB, SC],
                message: ServerMessage::WordBombInvalidGuess { uuid: A, reason },
            }])
        );
        assert_eq!(room, before);
    }
    let mut room = bomb(2, 2, A);
    room.word_bomb_guess(A, "cat".to_string(), "r", &global(), 6_000, 8).unwrap();
    match &mut room.state {
        State::WordBomb(game) => game.prompt = "at".to_string(),
        other => panic!("unexpected {:?}", other),
    }
    assert_eq!(
        room.word_bomb_guess(B, "cat".to_string(), "r", &global(), 7_000, 9),
        Ok(vec![Effect::Send {
            to: vec![SA, SB, SC],
            message: ServerMessage::WordBombInvalidGuess { uuid: B, reason: GuessInfo::AlreadyUsed },
        }])
    );
}

#[test]
fn guess_is_refused_in_the_right_order() {
    let mut room = bomb(2, 2, A);
    let before = room.clone();
    assert_eq!(
        room.word_bomb_guess(B, "x".repeat(36), "r", &global(), 0, 8),
        Err(GameError::WordBomb(WordBombError::GuessTooLong))
    );
    assert_eq!(
        room.word_bomb_guess(B, "cat".to_string(), "r", &global(), 0, 8),
        Err(GameError::WordBomb(WordBombError::OutOfTurn))
    );
    assert_eq!(
        room.word_bomb_guess(C, "cat".to_string(), "r", &global(), 0, 8),
        Err(GameError::WordBomb(WordBombError::OutOfTurn))
    );
    assert_eq!(room, before);
    let long_but_mostly_dropped = format!("{}cat", "1".repeat(100));
    assert!(room.word_bomb_guess(A, long_but_mostly_dropped, "r", &global(), 0, 8).is_ok());
    let mut lobby = Room::default();
    assert_eq!(
        lobby.word_bomb_guess(A, "cat".to_string(), "r", &global(), 0, 8),
        Err(GameError::InvalidState { state: "word bomb" })
    );
}

#[test]
fn timeout_costs_a_life_and_passes_the_turn() {
    let mut room = bomb(2, 2, A);
    let effects = room.word_bomb_timer("at", "r", &global(), 30_000, 8).unwrap();
    let game = game_of(&room).clone();
    assert_eq!(game.players[0].lives, 1);
    assert_eq!(game.turn, B);
    assert_eq!(game.prompt, "at");
    assert_eq!(game.missed_prompts, vec!["at"]);
    assert_eq!(game.timer.task, 8);
    assert!((10_000..=30_000).contains(&game.timer.length));
    assert_eq!(
        effects,
        vec![
            Effect::Send {
                to: vec![SA, SB, SC],
                message: ServerMessage::WordBombPrompt {
                    correct_guess: None,
                    life_change: -1,
                    prompt: "at".to_string(),
                    turn: B,
                },
            },
            Effect::Spawn {
                handle: 8,
                task: Task::WordBombTimer {
                    room: "r".to_string(),
                    timer_len: game.timer.length,
                    prompt: "at".to_string(),
                },
            },
        ]
    );
}

#[test]
fn timeout_for_an_old_prompt_does_nothing() {
    let mut room = bomb(2, 2, A);
    let before = room.clone();
    assert_eq!(room.word_bomb_timer("in", "r", &global(), 30_000, 8), Ok(vec![]));
    assert_eq!(room, before);
    let mut lobby = Room::default();
    assert_eq!(
        lobby.word_bomb_timer("at", "r", &global(), 30_000, 8),
        Err(GameError::InvalidState { state: "word bomb" })
    );
}

#[test]
fn timeout_cascade_ends_the_game() {
    let mut room = bomb(1, 1, A);
    room.clients[2].socket = None;
    room.owner = C;
    let effects = room.word_bomb_timer("at", "r", &global(), 61_000, 8).unwrap();
    assert_eq!(room.state, State::Lobby(Lobby { ready: vec![], countdown: None }));
    assert_eq!(
        room.clients,
        vec![client(A, Some(SA), "ann", None), client(B, Some(SB), "bob", None)]
    );
    assert!(room.owner == A || room.owner == B);
    match &effects[..] {
        [Effect::Send { to, message: ServerMessage::GameEnded { new_room_owner, info } }] => {
            assert_eq!(to, &vec![SA, SB]);
            assert_eq!(*new_room_owner, Some(room.owner));
            match info {
                PostGameInfo::WordBomb(info) => {
                    assert_eq!(info.winner, B);
                    assert_eq!(info.millis_elapsed, 60_000);
                    assert_eq!(info.words_used, 0);
                }
                other => panic!("unexpected {:?}", other),
            }
        }
        other => panic!("unexpected {:?}", other),
    }
}

#[test]
fn anagram_guess_that_scores_is_told_to_all() {
    let mut room = scramble();
    assert_eq!(
        room.anagrams_guess(A, "Team!".to_string(), &global()),
        Ok(vec![Effect::Send {
            to: vec![SA, SB, SC],
            message: ServerMessage::AnagramsCorrectGuess { uuid: A, guess: "team".to_string() },
        }])
    );
    match &room.state {
        State::Anagrams(game) => assert_eq!(game.players[0].used_words, vec!["team"]),
        other => panic!("unexpected {:?}", other),
    }
}

#[test]
fn flawed_anagram_guess_is_told_to_its_sender() {
    let mut room = scramble();
    room.anagrams_guess(A, "team".to_string(), &global()).unwrap();
    let before = room.clone();
    for (guess, reason) in [
        ("te", anagrams::GuessInfo::NotLongEnough),
        ("teem", anagrams::GuessInfo::PromptMismatch),
        ("mate", anagrams::GuessInfo::NotEnglish),
        ("team", anagrams::GuessInfo::AlreadyUsed),
    ] {
        assert_eq!(
            room.anagrams_guess(B, guess.to_string(), &global()),
            Ok(vec![Effect::Send {
                to: vec![SB],
                message: ServerMessage::AnagramsInvalidGuess { reason },
            }]),
            "{guess}"
        );
    }
    assert_eq!(room, before);
}

#[test]
fn anagram_guess_is_refused_in_the_right_order() {
    let mut room = scramble();
    let before = room.clone();
    assert_eq!(
        room.anagrams_guess(C, "streams".to_string(), &global()),
        Err(GameError::Anagrams(AnagramsError::GuessTooLong))
    );
    assert_eq!(
        room.anagrams_guess(C, "team".to_string(), &global()),
        Err(GameError::Anagrams(AnagramsError::PlayerNotFound))
    );
    assert_eq!(room, before);
    assert!(room.anagrams_guess(A, "s-t-r-e-a-m".to_string(), &global()).is_ok());
    let mut lobby = Room::default();
    assert_eq!(
        lobby.anagrams_guess(A, "team".to_string(), &global()),
        Err(GameError::InvalidState { state: "anagrams" })
    );
    assert_eq!(
        lobby.anagrams_guess(A, "streams".to_string(), &global()),
        Err(GameError::Anagrams(AnagramsError::GuessTooLong))
    );
}

#[test]
fn anagrams_scoring() {
    let mut room = scramble();
    for word in ["team", "steam", "stream"] {
        assert!(matches!(
            &room.anagrams_guess(A, word.to_string(), &global()).unwrap()[0],
            Effect::Send { message: ServerMessage::AnagramsCorrectGuess { .. }, .. }
        ));
    }
    assert_eq!(
        room.anagrams_guess(B, "team".to_string(), &global()),
        Ok(vec![Effect::Send {
            to: vec![SB],
            message: ServerMessage::AnagramsInvalidGuess { reason: anagrams::GuessInfo::AlreadyUsed },
        }])
    );
    room.anagrams_guess(B, "rate".to_string(), &global()).unwrap();
    let effects = room.anagrams_timer().unwrap();
    assert_eq!(
        effects,
        vec![Effect::Send {
            to: vec![SA, SB, SC],
            message: ServerMessage::GameEnded {
                new_room_owner: None,
                info: PostGameInfo::Anagrams(anagrams::PostGameInfo {
                    original_word: "stream".to_string(),
                    leaderboard: vec![(A, 1_400), (B, 200)],
                    used_words: vec![
                        (A, vec!["team".to_string(), "steam".to_string(), "stream".to_string()]),
                        (B, vec!["rate".to_string()]),
                    ],
                }),
            },
        }]
    );
    assert_eq!(room.state, State::Lobby(Lobby { ready: vec![], countdown: None }));
    assert!(room.clients.iter().all(|c| c.rejoin_token.is_none()));
    assert_eq!(room.clients.len(), 3);
    assert_eq!(room.anagrams_timer(), Err(GameError::InvalidState { state: "anagrams" }));
}
