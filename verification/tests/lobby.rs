use wordbomb::clients::{pick_free, Client};
use wordbomb::error::GameError;
use wordbomb::global::GlobalData;
use wordbomb::lobby::{
    assign_tokens, check_for_countdown_update, check_for_new_room_owner, end_game, Countdown,
    Lobby,
};
use wordbomb::messages::{
    CountdownState, Effect, Games, PostGameInfo, RoomSettings, RoomStateInfo, ServerMessage, Task,
};
use wordbomb::anagrams;
use wordbomb::room::{Params, Room, State};
use wordbomb::word_bomb::WordBombSettings;

const A: u128 = 0xA;
const B: u128 = 0xB;
const C: u128 = 0xC;
const SA: u128 = 0x5A;
const SB: u128 = 0x5B;
const SC: u128 = 0x5C;

fn global() -> GlobalData {
    GlobalData::new("cat\nquiz\nstream\n", "5:in,er\n500:at\n")
}

fn params(name: &str) -> Params {
    Params { username: name.to_string(), rejoin_token: None }
}

fn three() -> Room {
    let mut room = Room::default();
    room.add_client(params("ann"), SA, A);
    room.add_client(params("bob"), SB, B);
    room.add_client(params("cy"), SC, C);
    room
}

fn lobby_of(room: &Room) -> &Lobby {
    match &room.state {
        State::Lobby(lobby) => lobby,
        other => panic!("unexpected {:?}", other),
    }
}

#[test]
fn countdown_starts_with_two_ready() {
    let mut lobby = Lobby { ready: vec![A, B], countdown: None };
    let (update, effects) = check_for_countdown_update(&mut lobby, "room1", 5);
    assert_eq!(update, Some(CountdownState::InProgress { time_left: 10 }));
    assert_eq!(lobby.countdown, Some(Countdown { time_left: 10, timer_handle: 5 }));
    assert_eq!(
        effects,
        vec![Effect::Spawn { handle: 5, task: Task::Countdown { room: "room1".to_string() } }]
    );
}

#[test]
fn countdown_stops_with_fewer_than_two_ready() {
    let mut lobby =
        Lobby { ready: vec![A], countdown: Some(Countdown { time_left: 4, timer_handle: 2 }) };
    let (update, effects) = check_for_countdown_update(&mut lobby, "room1", 5);
    assert_eq!(update, Some(CountdownState::Stopped));
    assert_eq!(lobby.countdown, None);
    assert_eq!(effects, vec![Effect::Abort { handle: 2 }]);
}

#[test]
fn countdown_stays_as_it_is_otherwise() {
    let mut lobby = Lobby { ready: vec![A], countdown: None };
    assert_eq!(check_for_countdown_update(&mut lobby, "room1", 5), (None, vec![]));
    assert_eq!(lobby.countdown, None);
    let running = Some(Countdown { time_left: 4, timer_handle: 2 });
    let mut lobby = Lobby { ready: vec![A, B, C], countdown: running };
    assert_eq!(check_for_countdown_update(&mut lobby, "room1", 5), (None, vec![]));
    assert_eq!(lobby.countdown, running);
}

#[test]
fn ready_and_unready_lead_back_to_the_start() {
    let mut room = three();
    let start = room.clone();
    let effects = room.client_ready(A, "r", 1).unwrap();
    assert_eq!(
        effects,
        vec![Effect::Send {
            to: vec![SA, SB, SC],
            message: ServerMessage::ReadyPlayers { ready: vec![A], countdown_update: None },
        }]
    );
    assert_eq!(lobby_of(&room).ready, vec![A]);
    let effects = room.client_unready(A, "r", 2).unwrap();
    assert_eq!(
        effects,
        vec![Effect::Send {
            to: vec![SA, SB, SC],
            message: ServerMessage::ReadyPlayers { ready: vec![], countdown_update: None },
        }]
    );
    assert_eq!(room, start);
}

#[test]
fn ready_twice_and_unready_without_being_ready_do_nothing() {
    let mut room = three();
    room.client_ready(A, "r", 1).unwrap();
    let before = room.clone();
    assert_eq!(room.client_ready(A, "r", 2), Ok(vec![]));
    assert_eq!(room.client_unready(B, "r", 3), Ok(vec![]));
    assert_eq!(room, before);
}

#[test]
fn stranger_cannot_get_ready() {
    let mut room = three();
    let before = room.clone();
    assert_eq!(room.client_ready(0xDD, "r", 1), Ok(vec![]));
    assert_eq!(room, before);
}

#[test]
fn second_ready_player_starts_the_countdown_and_leaving_stops_it() {
    let mut room = three();
    room.client_ready(A, "r", 1).unwrap();
    let effects = room.client_ready(B, "r", 2).unwrap();
    assert_eq!(
        effects,
        vec![
            Effect::Spawn { handle: 2, task: Task::Countdown { room: "r".to_string() } },
            Effect::Send {
                to: vec![SA, SB, SC],
                message: ServerMessage::ReadyPlayers {
                    ready: vec![A, B],
                    countdown_update: Some(CountdownState::InProgress { time_left: 10 }),
                },
            },
        ]
    );
    let third = room.client_ready(C, "r", 3).unwrap();
    assert_eq!(
        third,
        vec![Effect::Send {
            to: vec![SA, SB, SC],
            message: ServerMessage::ReadyPlayers { ready: vec![A, B, C], countdown_update: None },
        }]
    );
    room.client_unready(A, "r", 4).unwrap();
    assert!(lobby_of(&room).countdown.is_some());
    let effects = room.client_unready(C, "r", 5).unwrap();
    assert_eq!(
        effects,
        vec![
            Effect::Abort { handle: 2 },
            Effect::Send {
                to: vec![SA, SB, SC],
                message: ServerMessage::ReadyPlayers {
                    ready: vec![B],
                    countdown_update: Some(CountdownState::Stopped),
                },
            },
        ]
    );
    assert_eq!(lobby_of(&room), &Lobby { ready: vec![B], countdown: None });
}

#[test]
fn lobby_messages_fail_during_a_game() {
    let mut room = three();
    room.client_ready(A, "r", 1).unwrap();
    room.client_ready(B, "r", 2).unwrap();
    room.client_start_early(A, "r", &global(), 0, 3).unwrap();
    let before = room.clone();
    let wrong = Err(GameError::InvalidState { state: "lobby" });
    assert_eq!(room.client_ready(C, "r", 4), wrong);
    assert_eq!(room.client_unready(A, "r", 4), wrong);
    assert_eq!(room.client_start_early(A, "r", &global(), 0, 4), wrong);
    assert_eq!(room.start_when_ready("r", &global(), 0, 4), wrong);
    assert_eq!(room, before);
}

#[test]
fn tick_counts_down_and_tells_everybody() {
    let mut room = three();
    assert_eq!(room.start_when_ready("r", &global(), 0, 9), Ok(vec![]));
    room.client_ready(A, "r", 1).unwrap();
    room.client_ready(B, "r", 2).unwrap();
    for left in (1..=9).rev() {
        let effects = room.start_when_ready("r", &global(), 0, 9).unwrap();
        assert_eq!(
            effects,
            vec![Effect::Send {
                to: vec![SA, SB, SC],
                message: ServerMessage::StartingCountdown { time_left: left },
            }]
        );
        assert_eq!(lobby_of(&room).countdown, Some(Countdown { time_left: left, timer_handle: 2 }));
    }
}

#[test]
fn last_tick_starts_word_bomb() {
    let mut room = three();
    room.settings.word_bomb.min_wpm = 5;
    room.client_ready(A, "r", 1).unwrap();
    room.client_ready(B, "r", 2).unwrap();
    for _ in 0..9 {
        room.start_when_ready("r", &global(), 0, 9).unwrap();
    }
    let effects = room.start_when_ready("r", &global(), 77_000, 9).unwrap();
    let game = match &room.state {
        State::WordBomb(game) => game.clone(),
        other => panic!("unexpected {:?}", other),
    };
    let mut seats: Vec<u128> = game.players.iter().map(|p| p.uuid).collect();
    assert_eq!(game.turn, seats[0]);
    seats.sort();
    assert_eq!(seats, vec![A, B]);
    assert!(game.players.iter().all(|p| p.lives == 2 && p.used_words.is_empty()
        && p.used_letters.is_empty() && p.input.is_empty()));
    assert!((10_000..=30_000).contains(&game.timer.length));
    assert_eq!(game.timer.start, 77_000);
    assert_eq!(game.started_at, 77_000);
    assert_eq!(game.timer.task, 9);
    assert!(["in", "er", "at"].contains(&game.prompt.as_str()));
    assert_eq!(game.prompt_uses, 0);
    assert_eq!(game.settings, WordBombSettings { min_wpm: 5 });
    assert_eq!(effects.len(), 4);
    assert_eq!(
        effects[0],
        Effect::Spawn {
            handle: 9,
            task: Task::WordBombTimer {
                room: "r".to_string(),
                timer_len: game.timer.length,
                prompt: game.prompt.clone(),
            },
        }
    );
    for (client, effect) in room.clients.iter().zip(&effects[1..]) {
        match effect {
            Effect::Send { to, message: ServerMessage::GameStarted { rejoin_token, game: told } } => {
                assert_eq!(to, &vec![client.socket.unwrap()]);
                assert_eq!(*rejoin_token, client.rejoin_token);
                match told {
                    RoomStateInfo::WordBomb { players, turn, prompt, used_letters } => {
                        assert_eq!(players, &game.players);
                        assert_eq!(*turn, game.turn);
                        assert_eq!(prompt, &game.prompt);
                        assert_eq!(used_letters, &None);
                    }
                    other => panic!("unexpected {:?}", other),
                }
            }
            other => panic!("unexpected {:?}", other),
        }
    }
    assert!(room.clients[0].rejoin_token.is_some());
    assert!(room.clients[1].rejoin_token.is_some());
    assert_ne!(room.clients[0].rejoin_token, room.clients[1].rejoin_token);
    assert_eq!(room.clients[2].rejoin_token, None);
}

#[test]
fn prompts_of_a_new_game_respect_the_threshold() {
    for _ in 0..30 {
        let mut room = three();
        room.client_ready(A, "r", 1).unwrap();
        room.client_ready(B, "r", 2).unwrap();
        room.client_start_early(A, "r", &global(), 0, 3).unwrap();
        match &room.state {
            State::WordBomb(game) => assert_eq!(game.prompt, "at"),
            other => panic!("unexpected {:?}", other),
        }
    }
}

#[test]
fn seats_are_shuffled() {
    let mut firsts = std::collections::BTreeSet::new();
    for _ in 0..100 {
        let mut room = three();
        room.client_ready(A, "r", 1).unwrap();
        room.client_ready(B, "r", 2).unwrap();
        room.client_ready(C, "r", 3).unwrap();
        room.client_start_early(A, "r", &global(), 0, 4).unwrap();
        match &room.state {
            State::WordBomb(game) => {
                assert_eq!(game.players.len(), 3);
                firsts.insert(game.turn);
            }
            other => panic!("unexpected {:?}", other),
        }
    }
    assert_eq!(firsts.len(), 3);
}

#[test]
fn owner_starts_early_once_two_are_ready() {
    let mut room = three();
    room.client_ready(B, "r", 1).unwrap();
    let before = room.clone();
    assert_eq!(room.client_start_early(A, "r", &global(), 0, 2), Ok(vec![]));
    assert_eq!(room, before);
    room.client_ready(C, "r", 3).unwrap();
    let before = room.clone();
    assert_eq!(room.client_start_early(B, "r", &global(), 0, 4), Ok(vec![]));
    assert_eq!(room, before);
    let effects = room.client_start_early(A, "r", &global(), 0, 5).unwrap();
    assert_eq!(effects[0], Effect::Abort { handle: 3 });
    assert!(matches!(effects[1], Effect::Spawn { handle: 5, .. }));
    assert_eq!(effects.len(), 5);
    assert!(matches!(room.state, State::WordBomb(_)));
    assert_eq!(room.clients[0].rejoin_token, None);
    assert!(room.clients[1].rejoin_token.is_some());
    assert!(room.clients[2].rejoin_token.is_some());
}

#[test]
fn anagrams_start_when_the_settings_say_so() {
    let mut room = three();
    room.client_room_settings(
        A,
        RoomSettings { game: Games::Anagrams, public: true, word_bomb: WordBombSettings { min_wpm: 1 } },
    );
    room.client_ready(C, "r", 1).unwrap();
    room.client_ready(A, "r", 2).unwrap();
    let effects = room.client_start_early(A, "r", &global(), 0, 3).unwrap();
    let game = match &room.state {
        State::Anagrams(game) => game.clone(),
        other => panic!("unexpected {:?}", other),
    };
    assert_eq!(game.original, "stream");
    let mut letters: Vec<char> = game.anagram.chars().collect();
    letters.sort();
    assert_eq!(letters, vec!['a', 'e', 'm', 'r', 's', 't']);
    assert_eq!(game.timer, 3);
    assert_eq!(
        game.players,
        vec![anagrams::Player::new(C), anagrams::Player::new(A)]
    );
    assert_eq!(effects[0], Effect::Abort { handle: 2 });
    assert_eq!(
        effects[1],
        Effect::Spawn { handle: 3, task: Task::AnagramsTimer { room: "r".to_string() } }
    );
    match &effects[2] {
        Effect::Send { to, message: ServerMessage::GameStarted { rejoin_token, game: told } } => {
            assert_eq!(to, &vec![SA]);
            assert_eq!(*rejoin_token, room.clients[0].rejoin_token);
            assert_eq!(
                told,
                &RoomStateInfo::Anagrams { players: game.players.clone(), anagram: game.anagram.clone() }
            );
        }
        other => panic!("unexpected {:?}", other),
    }
    assert_eq!(effects.len(), 5);
}

#[test]
fn only_the_owner_changes_the_settings_and_only_in_the_lobby() {
    let new = RoomSettings { game: Games::Anagrams, public: true, word_bomb: WordBombSettings { min_wpm: 7 } };
    let mut room = three();
    let before = room.clone();
    assert_eq!(room.client_room_settings(B, new), vec![]);
    assert_eq!(room, before);
    assert_eq!(
        room.client_room_settings(A, new),
        vec![Effect::Send { to: vec![SA, SB, SC], message: ServerMessage::RoomSettings(new) }]
    );
    assert_eq!(room.settings, new);
    room.client_ready(A, "r", 1).unwrap();
    room.client_ready(B, "r", 2).unwrap();
    room.client_start_early(A, "r", &global(), 0, 3).unwrap();
    let before = room.clone();
    assert_eq!(room.client_room_settings(A, RoomSettings::default()), vec![]);
    assert_eq!(room, before);
}

#[test]
fn settings_show_in_the_snapshot_of_the_next_client() {
    let new = RoomSettings { game: Games::Anagrams, public: true, word_bomb: WordBombSettings { min_wpm: 7 } };
    let mut room = Room::default();
    room.add_client(params("ann"), SA, A);
    room.client_room_settings(A, new);
    let (_, effects) = room.add_client(params("bob"), SB, B);
    match effects.last() {
        Some(Effect::Send { message: ServerMessage::Info { room, .. }, .. }) => {
            assert_eq!(room.settings, new);
        }
        other => panic!("unexpected {:?}", other),
    }
}

#[test]
fn tokens_go_to_the_ready_players() {
    let mut clients = three().clients;
    assign_tokens(&mut clients, &vec![C, A, 0xDD], &vec![1, 2, 3]);
    assert_eq!(clients[0].rejoin_token, Some(2));
    assert_eq!(clients[1].rejoin_token, None);
    assert_eq!(clients[2].rejoin_token, Some(1));
}

#[test]
fn owner_stays_if_still_there() {
    let clients = three().clients;
    let mut owner = B;
    assert_eq!(check_for_new_room_owner(&clients, &mut owner), None);
    assert_eq!(owner, B);
    let mut owner = 0xDD;
    let new = check_for_new_room_owner(&clients, &mut owner);
    assert_eq!(new, Some(owner));
    assert!([A, B, C].contains(&owner));
}

#[test]
fn end_of_a_game_clears_the_room() {
    let mut clients = vec![
        Client { uuid: A, socket: None, username: "ann".to_string(), rejoin_token: Some(1) },
        Client { uuid: B, socket: Some(SB), username: "bob".to_string(), rejoin_token: Some(2) },
        Client { uuid: C, socket: Some(SC), username: "cy".to_string(), rejoin_token: None },
    ];
    let mut state = State::Anagrams(anagrams::Anagrams {
        timer: 1,
        anagram: "maerts".to_string(),
        original: "stream".to_string(),
        players: vec![],
    });
    let mut owner = B;
    let info = PostGameInfo::Anagrams(anagrams::PostGameInfo {
        original_word: "stream".to_string(),
        leaderboard: vec![],
        used_words: vec![],
    });
    let effects = end_game(&mut state, &mut clients, &mut owner, info.clone());
    assert_eq!(owner, B);
    assert_eq!(
        clients,
        vec![
            Client { uuid: B, socket: Some(SB), username: "bob".to_string(), rejoin_token: None },
            Client { uuid: C, socket: Some(SC), username: "cy".to_string(), rejoin_token: None },
        ]
    );
    assert_eq!(state, State::Lobby(Lobby { ready: vec![], countdown: None }));
    assert_eq!(
        effects,
        vec![Effect::Send {
            to: vec![SB, SC],
            message: ServerMessage::GameEnded { new_room_owner: None, info },
        }]
    );
}

#[test]
fn value_that_is_taken_gives_way_to_the_next_free_one() {
    assert_eq!(pick_free(&vec![], 5), 5);
    assert_eq!(pick_free(&vec![4, 6], 5), 5);
    assert_eq!(pick_free(&vec![5], 5), 6);
    assert_eq!(pick_free(&vec![7, 5, 6], 5), 8);
    assert_eq!(pick_free(&vec![5, 7], 5), 6);
    assert_eq!(pick_free(&vec![u128::MAX], u128::MAX), 0);
    assert_eq!(pick_free(&vec![0, u128::MAX, 1], u128::MAX), 2);
}

#[test]
fn tokens_of_a_game_all_differ() {
    for _ in 0..20 {
        let mut room = three();
        room.client_ready(A, "r", 1).unwrap();
        room.client_ready(B, "r", 2).unwrap();
        room.client_ready(C, "r", 3).unwrap();
        room.client_start_early(A, "r", &global(), 0, 4).unwrap();
        let mut tokens: Vec<u128> = room.clients.iter().map(|c| c.rejoin_token.unwrap()).collect();
        tokens.sort();
        tokens.dedup();
        assert_eq!(tokens.len(), 3);
    }
}
