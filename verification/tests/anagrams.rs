use wordbomb::anagrams::{calculate_points, get_post_game_info, Anagrams, GuessInfo, Player};
use wordbomb::error::{AnagramsError, GameError};
use wordbomb::global::GlobalData;

const A: u128 = 0xA;
const B: u128 = 0xB;

const WORDS: &str = "arm\nat\nmaster\nme\nrate\nrats\nsteam\nsteams\nstream\nteam\nteem\n";

fn global() -> GlobalData {
    GlobalData::new(WORDS, "5:at\n")
}

fn game() -> Anagrams {
    Anagrams {
        timer: 3,
        anagram: "maerts".to_string(),
        original: "stream".to_string(),
        players: vec![Player::new(A), Player::new(B)],
    }
}

#[test]
fn points_double_with_each_letter() {
    assert_eq!(calculate_points("abc"), 100);
    assert_eq!(calculate_points("abcd"), 200);
    assert_eq!(calculate_points("abcde"), 400);
    assert_eq!(calculate_points("abcdef"), 800);
    assert_eq!(calculate_points("ab"), 50);
    assert_eq!(calculate_points("abcdefg"), 1_600);
    assert_eq!(calculate_points("abcdefghijklmnopqrstuvwxyzab"), 50 * (1 << 26));
}

#[test]
fn new_player_has_no_words() {
    assert_eq!(Player::new(A), Player { uuid: A, used_words: Vec::new() });
}

#[test]
fn valid_guess_scores_for_its_player() {
    let mut g = game();
    assert_eq!(g.check_guess(A, "team", &global()), Ok(GuessInfo::Valid));
    assert_eq!(g.players[0].used_words, vec!["team"]);
    assert!(g.players[1].used_words.is_empty());
    assert_eq!(g.anagram, "maerts");
    assert_eq!(g.original, "stream");
    assert_eq!(g.timer, 3);
}

#[test]
fn guess_under_three_bytes_is_too_short() {
    let mut g = game();
    let before = g.clone();
    assert_eq!(g.check_guess(A, "", &global()), Ok(GuessInfo::NotLongEnough));
    assert_eq!(g.check_guess(A, "m", &global()), Ok(GuessInfo::NotLongEnough));
    assert_eq!(g.check_guess(A, "me", &global()), Ok(GuessInfo::NotLongEnough));
    assert_eq!(g.check_guess(A, "at", &global()), Ok(GuessInfo::NotLongEnough));
    assert_eq!(g, before);
    assert_eq!(g.check_guess(A, "arm", &global()), Ok(GuessInfo::Valid));
}

#[test]
fn letters_must_come_from_the_anagram() {
    let mut g = game();
    let before = g.clone();
    assert_eq!(g.check_guess(A, "teem", &global()), Ok(GuessInfo::PromptMismatch));
    assert_eq!(g.check_guess(A, "steams", &global()), Ok(GuessInfo::PromptMismatch));
    assert_eq!(g.check_guess(A, "dog", &global()), Ok(GuessInfo::PromptMismatch));
    assert_eq!(g, before);
}

#[test]
fn word_must_be_in_the_dictionary() {
    let mut g = game();
    let before = g.clone();
    assert_eq!(g.check_guess(A, "mate", &global()), Ok(GuessInfo::NotEnglish));
    assert_eq!(g.check_guess(A, "tre", &global()), Ok(GuessInfo::NotEnglish));
    assert_eq!(g, before);
}

#[test]
fn checks_come_in_their_order() {
    let mut g = game();
    assert_eq!(g.check_guess(0xC, "zz", &global()), Ok(GuessInfo::NotLongEnough));
    assert_eq!(g.check_guess(0xC, "zzz", &global()), Ok(GuessInfo::PromptMismatch));
    assert_eq!(g.check_guess(0xC, "mat", &global()), Ok(GuessInfo::NotEnglish));
    assert_eq!(
        g.check_guess(0xC, "team", &global()),
        Err(GameError::Anagrams(AnagramsError::PlayerNotFound))
    );
    assert_eq!(g, game());
}

#[test]
fn guess_longer_than_the_anagram_is_refused() {
    let mut g = game();
    let before = g.clone();
    assert_eq!(
        g.check_guess(A, "streams", &global()),
        Err(GameError::Anagrams(AnagramsError::GuessTooLong))
    );
    assert_eq!(
        g.check_guess(0xC, "zzzzzzzzzz", &global()),
        Err(GameError::Anagrams(AnagramsError::GuessTooLong))
    );
    assert_eq!(g, before);
    assert_eq!(g.check_guess(A, "stream", &global()), Ok(GuessInfo::Valid));
}

#[test]
fn word_scores_once_in_a_game() {
    let mut g = game();
    assert_eq!(g.check_guess(A, "team", &global()), Ok(GuessInfo::Valid));
    assert_eq!(g.check_guess(A, "team", &global()), Ok(GuessInfo::AlreadyUsed));
    assert_eq!(g.check_guess(B, "team", &global()), Ok(GuessInfo::AlreadyUsed));
    assert_eq!(g.check_guess(B, "rate", &global()), Ok(GuessInfo::Valid));
    assert_eq!(g.players[0].used_words, vec!["team"]);
    assert_eq!(g.players[1].used_words, vec!["rate"]);
}

#[test]
fn scores_and_leaderboard() {
    let mut g = game();
    for word in ["team", "steam", "stream"] {
        assert_eq!(g.check_guess(A, word, &global()), Ok(GuessInfo::Valid));
    }
    assert_eq!(g.check_guess(B, "team", &global()), Ok(GuessInfo::AlreadyUsed));
    assert_eq!(g.check_guess(B, "rate", &global()), Ok(GuessInfo::Valid));
    assert_eq!(g.players[0].points(), 1_400);
    assert_eq!(g.players[1].points(), 200);
    let info = get_post_game_info(&g);
    assert_eq!(info.original_word, "stream");
    assert_eq!(info.leaderboard, vec![(A, 1_400), (B, 200)]);
    assert_eq!(
        info.used_words,
        vec![
            (A, vec!["team".to_string(), "steam".to_string(), "stream".to_string()]),
            (B, vec!["rate".to_string()]),
        ]
    );
}

#[test]
fn leaderboard_puts_the_higher_score_first() {
    let mut g = game();
    assert_eq!(g.check_guess(A, "arm", &global()), Ok(GuessInfo::Valid));
    assert_eq!(g.check_guess(B, "master", &global()), Ok(GuessInfo::Valid));
    let info = get_post_game_info(&g);
    assert_eq!(info.leaderboard, vec![(B, 800), (A, 100)]);
    assert_eq!(info.used_words[0].0, A);
    assert_eq!(info.used_words[1].0, B);
}

#[test]
fn equal_scores_stay_in_seat_order() {
    let mut g = game();
    assert_eq!(g.check_guess(B, "rate", &global()), Ok(GuessInfo::Valid));
    assert_eq!(g.check_guess(A, "team", &global()), Ok(GuessInfo::Valid));
    let info = get_post_game_info(&g);
    assert_eq!(info.leaderboard, vec![(A, 200), (B, 200)]);
    let empty = get_post_game_info(&game());
    assert_eq!(empty.leaderboard, vec![(A, 0), (B, 0)]);
}
