use wordbomb::global::{GlobalData, Prompts};

const WORDS: &str = "cat\ncater\ndog\nquiz\nrate\nsteam\nstream\nteam\n";
const PROMPTS: &str = "1:qu,ui\n3:at,te\n4:ea\n";

#[test]
fn dictionary_holds_the_lines() {
    let global = GlobalData::new(WORDS, PROMPTS);
    assert_eq!(
        global.words,
        vec!["cat", "cater", "dog", "quiz", "rate", "steam", "stream", "team"]
    );
    assert!(global.sorted);
    assert_eq!(global.six, vec![6]);
}

#[test]
fn words_are_valid_exactly_if_listed() {
    let global = GlobalData::new(WORDS, PROMPTS);
    for word in ["cat", "cater", "dog", "quiz", "rate", "steam", "stream", "team"] {
        assert!(global.is_valid(word), "{word}");
    }
    for word in ["", "ca", "cats", "Cat", "zebra", "aardvark", "steamy", "tea"] {
        assert!(!global.is_valid(word), "{word}");
    }
}

#[test]
fn an_unsorted_dictionary_is_searched_all_the_same() {
    let global = GlobalData::new("team\ncat\nstream\ndog\n", PROMPTS);
    assert!(!global.sorted);
    for word in ["team", "cat", "stream", "dog"] {
        assert!(global.is_valid(word), "{word}");
    }
    assert!(!global.is_valid("rate"));
    assert_eq!(global.six, vec![2]);
}

#[test]
fn a_dictionary_with_a_word_twice_counts_as_sorted() {
    let global = GlobalData::new("cat\ncat\ndog\n", PROMPTS);
    assert!(global.sorted);
    assert!(global.is_valid("cat"));
    assert!(global.is_valid("dog"));
}

#[test]
fn an_empty_dictionary_holds_no_word() {
    let global = GlobalData::new("", "");
    assert!(global.words.is_empty());
    assert!(global.six.is_empty());
    assert!(!global.is_valid("cat"));
    assert!(!global.is_valid(""));
    assert!(global.prompts.prompts.is_empty());
    assert!(global.prompts.wpp_indexes.is_empty());
}

#[test]
fn prompts_file_is_read_in_groups() {
    let prompts = Prompts::new(PROMPTS);
    assert_eq!(prompts.prompts, vec!["qu", "ui", "at", "te", "ea"]);
    assert_eq!(prompts.wpp_indexes, vec![(1, 0), (3, 2), (4, 4)]);
}

#[test]
fn lines_without_a_colon_or_a_count_are_passed_over() {
    let prompts = Prompts::new("junk\n2:ab\nx:cd,ef\n5:gh\n");
    assert_eq!(prompts.prompts, vec!["ab", "cd", "ef", "gh"]);
    assert_eq!(prompts.wpp_indexes, vec![(2, 0), (5, 3)]);
}

#[test]
fn a_group_points_at_the_first_prompt_that_reads_like_its_first() {
    let prompts = Prompts::new("1:ab,cd\n2:cd,ef\n");
    assert_eq!(prompts.prompts, vec!["ab", "cd", "cd", "ef"]);
    assert_eq!(prompts.wpp_indexes, vec![(1, 0), (2, 1)]);
}

#[test]
fn pool_starts_at_the_first_group_that_reaches_the_threshold() {
    let prompts = Prompts::new(PROMPTS);
    assert_eq!(prompts.pool_start(0), 0);
    assert_eq!(prompts.pool_start(1), 0);
    assert_eq!(prompts.pool_start(2), 2);
    assert_eq!(prompts.pool_start(3), 2);
    assert_eq!(prompts.pool_start(4), 4);
}

#[test]
fn pool_falls_back_to_the_closest_group() {
    let prompts = Prompts::new(PROMPTS);
    assert_eq!(prompts.pool_start(5), 4);
    assert_eq!(prompts.pool_start(500), 4);
    let unsorted = Prompts::new("9:aa\n2:bb\n7:cc\n");
    assert_eq!(unsorted.pool_start(10), 0);
    assert_eq!(unsorted.pool_start(8), 0);
    assert_eq!(unsorted.pool_start(1), 0);
}

#[test]
fn prompt_at_walks_the_pool() {
    let prompts = Prompts::new(PROMPTS);
    assert_eq!(prompts.prompt_at(0, 0), "qu");
    assert_eq!(prompts.prompt_at(0, 4), "ea");
    assert_eq!(prompts.prompt_at(3, 0), "at");
    assert_eq!(prompts.prompt_at(3, 2), "ea");
    assert_eq!(prompts.prompt_at(4, 0), "ea");
}

#[test]
fn random_prompts_come_from_the_pool() {
    let prompts = Prompts::new(PROMPTS);
    let mut seen = std::collections::BTreeSet::new();
    for _ in 0..400 {
        let prompt = prompts.random_prompt(3);
        assert!(["at", "te", "ea"].contains(&prompt), "{prompt}");
        seen.insert(prompt.to_string());
    }
    assert_eq!(seen.len(), 3);
    for _ in 0..50 {
        assert_eq!(prompts.random_prompt(4), "ea");
    }
}

#[test]
fn anagrams_are_six_byte_words_shuffled() {
    let global = GlobalData::new(WORDS, PROMPTS);
    assert_eq!(global.anagram_base(0), "stream");
    let mut shuffled_differs = false;
    for _ in 0..200 {
        let (original, anagram) = global.random_anagram();
        assert_eq!(original, "stream");
        let mut a: Vec<char> = anagram.chars().collect();
        let mut b: Vec<char> = original.chars().collect();
        a.sort();
        b.sort();
        assert_eq!(a, b);
        if anagram != original {
            shuffled_differs = true;
        }
    }
    assert!(shuffled_differs);
}

#[test]
fn six_byte_words_are_all_found() {
    let global = GlobalData::new("abcdef\nab\nghijkl\nabcdefg\nmnopqr", PROMPTS);
    assert_eq!(global.six, vec![0, 2, 4]);
    assert_eq!(global.anagram_base(1), "ghijkl");
    assert_eq!(global.anagram_base(2), "mnopqr");
}

#[test]
fn games_need_prompts_and_six_byte_words() {
    assert!(GlobalData::new(WORDS, PROMPTS).is_playable());
    assert!(!GlobalData::new("cat\ndog\n", PROMPTS).is_playable());
    assert!(!GlobalData::new(WORDS, "no groups here\n").is_playable());
    assert!(!GlobalData::new("", "").is_playable());
}
