use wordbomb::error::{GameError, WordBombError};
use wordbomb::global::GlobalData;
use wordbomb::stats::get_post_game_info;
use wordbomb::word_bomb::{GuessInfo, Player, Timer, WordBomb, WordBombSettings};

const A: u128 = 0xA;
const B: u128 = 0xB;
const C: u128 = 0xC;

const WORDS: &str = "cat\ncater\ndog\nquiz\nrate\nsquat\nsteam\nstream\nteam\n";
const PROMPTS: &str = "5:in,er\n";

fn global() -> GlobalData {
    GlobalData::new(WORDS, PROMPTS)
}

fn player(uuid: u128, lives: u128) -> Player {
    Player { uuid, input: String::new(), lives, used_words: Vec::new(), used_letters: Vec::new() }
}

fn game(players: Vec<Player>, turn: u128, prompt: &str) -> WordBomb {
    WordBomb {
        settings: WordBombSettings { min_wpm: 5 },
        started_at: 1_000,
        timer: Timer { task: 7, start: 1_000, length: 20_000 },
        prompt: prompt.to_string(),
        prompt_uses: 0,
        missed_prompts: Vec::new(),
        players,
        turn,
    }
}

fn almost_all_letters() -> Vec<char> {
    ('a'..='z').filter(|c| !['x', 'z', 'q'].contains(c)).collect()
}

#[test]
fn new_player_has_two_lives_and_nothing_typed() {
    let p = Player::new(A);
    assert_eq!(p, player(A, 2));
}

#[test]
fn valid_guess_is_recorded_and_passes_the_turn() {
    let mut g = game(vec![player(A, 2), player(B, 2)], A, "at");
    let r = g.check_guess("cat", &global(), 6_000);
    assert_eq!(r, Ok(GuessInfo::Valid { extra_life: false }));
    assert_eq!(g.players[0].used_words, vec![(5_000, "cat".to_string())]);
    assert_eq!(g.players[0].used_letters, vec!['c', 'a', 't']);
    assert_eq!(g.players[0].lives, 2);
    assert_eq!(g.players[1], player(B, 2));
    assert_eq!(g.turn, B);
    assert_eq!(g.timer, Timer { task: 7, start: 1_000, length: 15_000 });
    assert!(g.prompt == "in" || g.prompt == "er");
    assert_eq!(g.prompt_uses, 0);
    assert!(g.missed_prompts.is_empty());
    assert_eq!(g.started_at, 1_000);
}

#[test]
fn guess_without_the_prompt_is_flawed() {
    let mut g = game(vec![player(A, 2), player(B, 2)], A, "at");
    let before = g.clone();
    assert_eq!(g.check_guess("dog", &global(), 6_000), Ok(GuessInfo::PromptNotIn));
    assert_eq!(g, before);
}

#[test]
fn guess_that_is_no_word_is_flawed() {
    let mut g = game(vec![player(A, 2), player(B, 2)], A, "at");
    let before = g.clone();
    assert_eq!(g.check_guess("bat", &global(), 6_000), Ok(GuessInfo::NotEnglish));
    assert_eq!(g, before);
}

#[test]
fn prompt_is_checked_before_the_dictionary() {
    let mut g = game(vec![player(A, 2), player(B, 2)], A, "at");
    assert_eq!(g.check_guess("xyzzy", &global(), 6_000), Ok(GuessInfo::PromptNotIn));
}

#[test]
fn word_used_by_anybody_is_flawed() {
    let mut other = player(B, 2);
    other.used_words.push((300, "cat".to_string()));
    let mut g = game(vec![player(A, 2), other], A, "at");
    let before = g.clone();
    assert_eq!(g.check_guess("cat", &global(), 6_000), Ok(GuessInfo::AlreadyUsed));
    assert_eq!(g, before);
    let mut own = player(A, 2);
    own.used_words.push((300, "squat".to_string()));
    let mut g = game(vec![own, player(B, 2)], A, "at");
    assert_eq!(g.check_guess("squat", &global(), 6_000), Ok(GuessInfo::AlreadyUsed));
}

#[test]
fn letters_are_added_once_each_in_the_order_of_the_word() {
    let mut p = player(A, 2);
    p.used_letters = vec!['t', 'z'];
    let mut g = game(vec![p, player(B, 2)], A, "at");
    assert_eq!(g.check_guess("cater", &global(), 1_000), Ok(GuessInfo::Valid { extra_life: false }));
    assert_eq!(g.players[0].used_letters, vec!['t', 'z', 'c', 'a', 'e', 'r']);
}

#[test]
fn completing_the_letters_earns_a_life_and_clears_them() {
    let mut p = player(A, 2);
    p.used_letters = almost_all_letters();
    let mut g = game(vec![p, player(B, 2)], A, "ui");
    assert_eq!(g.check_guess("quiz", &global(), 2_000), Ok(GuessInfo::Valid { extra_life: true }));
    assert_eq!(g.players[0].lives, 3);
    assert!(g.players[0].used_letters.is_empty());
    assert_eq!(g.players[0].used_words, vec![(1_000, "quiz".to_string())]);
    assert_eq!(g.turn, B);
}

#[test]
fn letters_short_of_one_earn_nothing() {
    let mut p = player(A, 2);
    p.used_letters = almost_all_letters();
    let mut g = game(vec![p, player(B, 2)], A, "at");
    assert_eq!(g.check_guess("cat", &global(), 2_000), Ok(GuessInfo::Valid { extra_life: false }));
    assert_eq!(g.players[0].lives, 2);
    assert_eq!(g.players[0].used_letters, almost_all_letters());
}

#[test]
fn timer_is_never_trimmed_below_six_seconds() {
    for (now, expected) in [
        (1_000u64, 20_000u64),
        (1_001, 19_999),
        (15_000, 6_000),
        (14_999, 6_001),
        (15_001, 6_000),
        (21_000, 6_000),
        (1_000_000_000, 6_000),
        (u64::MAX, 6_000),
        (0, 20_000),
    ] {
        let mut g = game(vec![player(A, 2), player(B, 2)], A, "at");
        assert_eq!(g.check_guess("cat", &global(), now), Ok(GuessInfo::Valid { extra_life: false }));
        assert_eq!(g.timer.length, expected, "at {now}");
        let elapsed = now.saturating_sub(1_000);
        assert_eq!(g.players[0].used_words[0].0, elapsed);
    }
}

#[test]
fn turn_goes_round_and_passes_over_players_without_lives() {
    let mut g = game(vec![player(A, 2), player(B, 0), player(C, 1)], A, "at");
    assert_eq!(g.update_turn(), Ok(()));
    assert_eq!(g.turn, C);
    assert_eq!(g.update_turn(), Ok(()));
    assert_eq!(g.turn, A);
    let mut g = game(vec![player(A, 1), player(B, 1), player(C, 1)], C, "at");
    assert_eq!(g.update_turn(), Ok(()));
    assert_eq!(g.turn, A);
    assert_eq!(g.update_turn(), Ok(()));
    assert_eq!(g.turn, B);
}

#[test]
fn turn_cannot_pass_with_one_player_left() {
    let mut g = game(vec![player(A, 2), player(B, 0)], A, "at");
    let before = g.clone();
    assert_eq!(g.update_turn(), Err(GameError::WordBomb(WordBombError::NoPlayersAlive)));
    assert_eq!(g, before);
    let mut g = game(vec![player(A, 0), player(B, 0)], A, "at");
    assert_eq!(g.update_turn(), Err(GameError::WordBomb(WordBombError::NoPlayersAlive)));
}

#[test]
fn alive_players_are_those_with_lives() {
    let g = game(vec![player(A, 2), player(B, 0), player(C, 1)], A, "at");
    let alive: Vec<u128> = g.alive_players().iter().map(|p| p.uuid).collect();
    assert_eq!(alive, vec![A, C]);
}

#[test]
fn find_player_gives_the_seat() {
    let g = game(vec![player(A, 2), player(B, 0), player(C, 1)], A, "at");
    assert_eq!(g.find_player(A), Some(0));
    assert_eq!(g.find_player(C), Some(2));
    assert_eq!(g.find_player(0xD), None);
}

#[test]
fn accept_prompt_takes_only_another_prompt() {
    let mut g = game(vec![player(A, 2), player(B, 2)], A, "at");
    assert!(!g.accept_prompt("at"));
    assert_eq!(g.prompt, "at");
    assert!(g.accept_prompt("in"));
    assert_eq!(g.prompt, "in");
}

#[test]
fn new_prompt_resets_the_use_count() {
    let mut g = game(vec![player(A, 2), player(B, 2)], A, "at");
    g.prompt_uses = 1;
    g.new_prompt(&global().prompts);
    assert_eq!(g.prompt_uses, 0);
    assert!(g.prompt == "in" || g.prompt == "er");
}

#[test]
fn new_prompt_keeps_a_prompt_that_is_the_only_one() {
    let only = GlobalData::new(WORDS, "5:at\n");
    let mut g = game(vec![player(A, 2), player(B, 2)], A, "at");
    g.new_prompt(&only.prompts);
    assert_eq!(g.prompt, "at");
}

#[test]
fn first_timeout_keeps_the_prompt_and_costs_a_life() {
    let mut g = game(vec![player(A, 2), player(B, 2)], A, "at");
    assert_eq!(g.player_timed_out(&global().prompts), Ok(()));
    assert_eq!(g.players[0].lives, 1);
    assert_eq!(g.players[1].lives, 2);
    assert_eq!(g.prompt, "at");
    assert_eq!(g.prompt_uses, 1);
    assert_eq!(g.missed_prompts, vec!["at"]);
    assert_eq!(g.turn, B);
    assert!((10_000..=30_000).contains(&g.timer.length));
    assert_eq!(g.timer.start, 1_000);
    assert_eq!(g.timer.task, 7);
}

#[test]
fn second_timeout_changes_the_prompt() {
    let mut g = game(vec![player(A, 2), player(B, 2)], A, "at");
    assert_eq!(g.player_timed_out(&global().prompts), Ok(()));
    assert_eq!(g.player_timed_out(&global().prompts), Ok(()));
    assert_eq!(g.players[0].lives, 1);
    assert_eq!(g.players[1].lives, 1);
    assert!(g.prompt == "in" || g.prompt == "er");
    assert_eq!(g.prompt_uses, 0);
    assert_eq!(g.missed_prompts, vec!["at", "at"]);
    assert_eq!(g.turn, A);
}

#[test]
fn timer_lengths_vary_within_their_bounds() {
    let mut seen = std::collections::BTreeSet::new();
    for _ in 0..50 {
        let mut g = game(vec![player(A, 2), player(B, 2)], A, "at");
        assert_eq!(g.player_timed_out(&global().prompts), Ok(()));
        assert!((10_000..=30_000).contains(&g.timer.length));
        seen.insert(g.timer.length);
    }
    assert!(seen.len() > 1);
}

#[test]
fn timeout_that_leaves_one_player_ends_in_an_error() {
    let mut g = game(vec![player(A, 1), player(B, 1)], A, "at");
    assert_eq!(
        g.player_timed_out(&global().prompts),
        Err(GameError::WordBomb(WordBombError::NoPlayersAlive))
    );
    assert_eq!(g.players[0].lives, 0);
    assert_eq!(g.players[1].lives, 1);
    assert_eq!(g.turn, B);
    assert_eq!(g.missed_prompts, vec!["at"]);
    assert_eq!(g.prompt, "at");
    assert_eq!(g.prompt_uses, 1);
}

#[test]
fn turn_passes_to_the_last_player_before_the_game_ends() {
    let mut g = game(
        vec![player(A, 1), player(B, 0), with_words(C, 3, &[(10, "dog")])],
        A,
        "at",
    );
    let mut two = game(vec![player(A, 0), player(B, 1)], A, "at");
    assert_eq!(two.update_turn(), Err(GameError::WordBomb(WordBombError::NoPlayersAlive)));
    assert_eq!(two.turn, B);
    assert_eq!(g.player_timed_out(&global().prompts), Err(GameError::WordBomb(WordBombError::NoPlayersAlive)));
    assert_eq!(g.turn, C);
    assert_eq!(g.players[0].lives, 0);
    assert_eq!(g.players[2].lives, 3);
}

#[test]
fn new_prompt_always_differs_where_the_pool_has_another() {
    for _ in 0..200 {
        let mut g = game(vec![player(A, 2), player(B, 2)], A, "in");
        g.new_prompt(&global().prompts);
        assert_eq!(g.prompt, "er");
    }
    let same = GlobalData::new(WORDS, "5:at,at,at\n");
    let mut g = game(vec![player(A, 2), player(B, 2)], A, "at");
    g.new_prompt(&same.prompts);
    assert_eq!(g.prompt, "at");
    assert_eq!(global().prompts.random_other(5, "in"), Some("er"));
    assert_eq!(global().prompts.random_other(5, "er"), Some("in"));
    assert_eq!(same.prompts.random_other(5, "at"), None);
    let all = global();
    let other = all.prompts.random_other(5, "at");
    assert!(other == Some("in") || other == Some("er"));
}

fn with_words(uuid: u128, lives: u128, words: &[(u64, &str)]) -> Player {
    let mut p = player(uuid, lives);
    p.used_words = words.iter().map(|(t, w)| (*t, w.to_string())).collect();
    p
}

#[test]
fn result_of_a_game_in_exact_figures() {
    let g = game(
        vec![
            with_words(A, 0, &[(2_000, "cat"), (4_000, "cater")]),
            with_words(B, 1, &[(1_000, "dog")]),
            player(C, 0),
        ],
        B,
        "at",
    );
    let info = get_post_game_info(&g, 181_000);
    assert_eq!(info.winner, B);
    assert_eq!(info.millis_elapsed, 180_000);
    assert_eq!(info.words_used, 3);
    assert_eq!(info.fastest_guesses, vec![(B, 1_000), (A, 2_000)]);
    assert_eq!(info.longest_words, vec![(A, "cater".to_string()), (B, "dog".to_string())]);
    assert_eq!(info.avg_wpms, vec![(B, 36_000), (A, 16_500)]);
    assert_eq!(info.avg_word_lengths, vec![(A, 4_000), (B, 3_000)]);
}

#[test]
fn equal_figures_keep_the_players_in_seat_order() {
    let g = game(
        vec![
            with_words(A, 1, &[(2_000, "cat")]),
            with_words(B, 1, &[(2_000, "dog")]),
            with_words(C, 1, &[(1_000, "rate")]),
        ],
        A,
        "at",
    );
    let info = get_post_game_info(&g, 500);
    assert_eq!(info.winner, A);
    assert_eq!(info.millis_elapsed, 0);
    assert_eq!(info.fastest_guesses, vec![(C, 1_000), (A, 2_000), (B, 2_000)]);
    assert_eq!(
        info.longest_words,
        vec![(C, "rate".to_string()), (A, "cat".to_string()), (B, "dog".to_string())]
    );
    assert_eq!(info.avg_wpms, vec![(C, 48_000), (A, 18_000), (B, 18_000)]);
    assert_eq!(info.avg_word_lengths, vec![(C, 4_000), (A, 3_000), (B, 3_000)]);
}

#[test]
fn longest_word_is_the_last_of_the_longest() {
    let g = game(
        vec![with_words(A, 1, &[(1, "cat"), (2, "steam"), (3, "dog"), (4, "cater")]), player(B, 1)],
        A,
        "at",
    );
    let info = get_post_game_info(&g, 2_000);
    assert_eq!(info.longest_words, vec![(A, "cater".to_string())]);
    assert_eq!(info.fastest_guesses, vec![(A, 1)]);
}

#[test]
fn word_typed_in_no_time_counts_as_fast_as_can_be() {
    let g = game(vec![with_words(A, 1, &[(0, "cat")]), player(B, 1)], A, "at");
    let info = get_post_game_info(&g, 2_000);
    assert_eq!(info.avg_wpms, vec![(A, u64::MAX)]);
    assert_eq!(info.fastest_guesses, vec![(A, 0)]);
}

#[test]
fn game_without_words_has_empty_boards() {
    let g = game(vec![player(A, 0), player(B, 2)], B, "at");
    let info = get_post_game_info(&g, 61_000);
    assert_eq!(info.winner, B);
    assert_eq!(info.millis_elapsed, 60_000);
    assert_eq!(info.words_used, 0);
    assert!(info.fastest_guesses.is_empty());
    assert!(info.longest_words.is_empty());
    assert!(info.avg_wpms.is_empty());
    assert!(info.avg_word_lengths.is_empty());
}

#[test]
fn player_figures() {
    let p = with_words(A, 1, &[(3_000, "steam"), (1_500, "cat"), (6_000, "stream")]);
    assert_eq!(p.fastest(), 1_500);
    assert_eq!(p.longest(), 2);
    assert_eq!(p.avg_speed(), (20_000 + 24_000 + 12_000) / 3);
    assert_eq!(p.avg_length(), (5_000 + 3_000 + 6_000) / 3);
}

#[test]
fn lives_have_no_ceiling() {
    let mut p = with_words(A, 255, &[]);
    p.used_words = (0..253).map(|i| (i as u64, format!("w{i}"))).collect();
    p.used_letters = almost_all_letters();
    let mut g = game(vec![p, player(B, 2)], A, "ui");
    assert_eq!(g.check_guess("quiz", &global(), 2_000), Ok(GuessInfo::Valid { extra_life: true }));
    assert_eq!(g.players[0].lives, 256);
}
