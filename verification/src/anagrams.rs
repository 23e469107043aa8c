//! Anagrams: for a fixed time every player looks for words that can be made
//! from the letters of a shuffled six-letter word.

use vstd::prelude::*;
use vstd::arithmetic::power2::{lemma2_to64, lemma_pow2_strictly_increases, lemma_pow2_unfold, pow2};
use crate::error::{AnagramsError, GameError};
use crate::global::GlobalData;
use crate::ranking::{arranged, is_ranking, sorted_order};
use crate::text::{byte_len, byte_length, chars_of, drawable, is_drawable, same_chars};

verus! {

/// Shortest guess that scores, in bytes.
pub const MIN_GUESS: usize = 3;

/// Longest guess that is looked at, in bytes: the length of the anagram.
pub const MAX_GUESS: usize = 6;

/// How long a game lasts, in milliseconds.
pub const GAME_LENGTH: u64 = 30_000;

#[derive(Clone, Debug, PartialEq)]
pub struct Anagrams {
    /// Handle of the task that ends the game.
    pub timer: u64,
    /// The letters as the players see them.
    pub anagram: String,
    /// The dictionary word that the letters were taken from.
    pub original: String,
    pub players: Vec<Player>,
}

#[derive(Clone, Debug, PartialEq)]
pub struct Player {
    pub uuid: u128,
    /// The words that scored, each once, in the order they came.
    pub used_words: Vec<String>,
}

pub struct PlayerView {
    pub uuid: u128,
    pub used_words: Seq<Seq<char>>,
}

impl DeepView for Player {
    type V = PlayerView;

    open spec fn deep_view(&self) -> PlayerView {
        PlayerView { uuid: self.uuid, used_words: self.used_words.deep_view() }
    }
}

#[derive(Clone, Copy, Debug, PartialEq, Eq, Structural)]
pub enum GuessInfo {
    NotLongEnough,
    PromptMismatch,
    NotEnglish,
    AlreadyUsed,
    Valid,
}

#[derive(Clone, Debug, PartialEq)]
pub struct PostGameInfo {
    pub original_word: String,
    /// Each player's points, highest first.
    pub leaderboard: Vec<(u128, u32)>,
    pub used_words: Vec<(u128, Vec<String>)>,
}

pub struct PostGameInfoView {
    pub original_word: Seq<char>,
    pub leaderboard: Seq<(u128, u32)>,
    pub used_words: Seq<(u128, Seq<Seq<char>>)>,
}

impl DeepView for PostGameInfo {
    type V = PostGameInfoView;

    open spec fn deep_view(&self) -> PostGameInfoView {
        PostGameInfoView {
            original_word: self.original_word@,
            leaderboard: self.leaderboard@,
            used_words: self.used_words.deep_view(),
        }
    }
}

/// Points for a word of `len` bytes: 100 for three, doubled with each further byte.
pub open spec fn points(len: nat) -> nat {
    50 * pow2((len - 2) as nat)
}

/// Points for all the words together.
pub open spec fn total_points(words: Seq<Seq<char>>) -> nat
    decreases words.len(),
{
    if words.len() == 0 {
        0
    } else {
        total_points(words.drop_last()) + points(byte_len(words.last()))
    }
}

/// A player's score: the points for the words, as far as 32 bits hold them.
pub open spec fn score(words: Seq<Seq<char>>) -> u32 {
    if total_points(words) <= u32::MAX {
        total_points(words) as u32
    } else {
        u32::MAX
    }
}

/// Seat of the player with the given identity, or the number of seats.
pub open spec fn seat_of(players: Seq<Player>, id: u128) -> int
    decreases players.len(),
{
    if players.len() == 0 {
        0
    } else if seat_of(players.drop_last(), id) < players.len() - 1 {
        seat_of(players.drop_last(), id)
    } else if players.last().uuid == id {
        players.len() - 1
    } else {
        players.len() as int
    }
}

/// Some player has already scored with the word.
pub open spec fn word_used(players: Seq<Player>, word: Seq<char>) -> bool {
    exists|i: int, a: int|
        0 <= i < players.len() && 0 <= a < players[i].used_words@.len() && (
        #[trigger] players[i].used_words@[a])@ == word
}

/// No word scored twice, for one player or for two.
pub open spec fn words_unique(players: Seq<Player>) -> bool {
    forall|i: int, a: int, j: int, b: int|
        0 <= i < players.len() && 0 <= a < players[i].used_words@.len() && 0 <= j < players.len()
            && 0 <= b < players[j].used_words@.len() && (i != j || a != b) ==> (
        #[trigger] players[i].used_words@[a])@ != (#[trigger] players[j].used_words@[b])@
}

/// A word that can score: long enough, not too long, and made of the
/// anagram's letters.
pub open spec fn scoring_word(word: Seq<char>, anagram: Seq<char>) -> bool {
    MIN_GUESS <= byte_len(word) <= MAX_GUESS && drawable(word, anagram)
}

pub proof fn lemma_seat_of(players: Seq<Player>, id: u128)
    ensures
        0 <= seat_of(players, id) <= players.len(),
        seat_of(players, id) < players.len() ==> players[seat_of(players, id)].uuid == id,
        forall|i: int| 0 <= i < seat_of(players, id) ==> (#[trigger] players[i]).uuid != id,
    decreases players.len(),
{
    if players.len() > 0 {
        lemma_seat_of(players.drop_last(), id);
        assert forall|i: int| 0 <= i < seat_of(players, id) implies (#[trigger] players[i]).uuid
            != id by {
            if i < players.len() - 1 {
                assert(players.drop_last()[i] == players[i]);
            }
        }
    }
}

/// Points for a word: 100 for three bytes, doubled with each further byte.
pub fn calculate_points(word: &str) -> (r: u32)
    requires
        2 <= byte_len(word@) <= 28,
    ensures
        r == points(byte_len(word@)),
{
    let steps: usize = word.len() - 2;
    let mut r: u32 = 50;
    let mut i: usize = 0;
    proof {
        lemma2_to64();
    }
    while i < steps
        invariant
            i <= steps <= 26,
            r == 50 * pow2(i as nat),
            pow2(26) == 0x4000000,
        decreases steps - i,
    {
        proof {
            lemma_pow2_unfold((i + 1) as nat);
            if i + 1 < 26 {
                lemma_pow2_strictly_increases((i + 1) as nat, 26);
            }
        }
        r = r * 2;
        i += 1;
    }
    r
}

impl Player {
    /// A player at the start of a game.
    pub fn new(uuid: u128) -> (r: Player)
        ensures
            r.uuid == uuid,
            r.used_words@.len() == 0,
    {
        Player { uuid, used_words: Vec::new() }
    }

    /// The player's score.
    pub fn points(&self) -> (r: u32)
        requires
            forall|a: int|
                0 <= a < self.used_words@.len() ==> 2 <= byte_len(
                    (#[trigger] self.used_words@[a])@,
                ) <= 28,
        ensures
            r == score(self.used_words.deep_view()),
    {
        let mut total: u32 = 0;
        let mut a: usize = 0;
        let ghost words = self.used_words.deep_view();
        assert(words.subrange(0, 0) =~= Seq::<Seq<char>>::empty());
        while a < self.used_words.len()
            invariant
                a <= self.used_words@.len(),
                words == self.used_words.deep_view(),
                total == score(words.subrange(0, a as int)),
                forall|a: int|
                    0 <= a < self.used_words@.len() ==> 2 <= byte_len(
                        (#[trigger] self.used_words@[a])@,
                    ) <= 28,
            decreases self.used_words@.len() - a,
        {
            assert(words.subrange(0, a + 1).drop_last() =~= words.subrange(0, a as int));
            assert(words.subrange(0, a + 1).last() == self.used_words@[a as int]@);
            let p = calculate_points(self.used_words[a].as_str());
            total = total.saturating_add(p);
            a += 1;
        }
        assert(words.subrange(0, a as int) =~= words);
        total
    }
}

/// A copy of the texts.
pub(crate) fn copy_words(words: &Vec<String>) -> (r: Vec<String>)
    ensures
        r.deep_view() == words.deep_view(),
{
    let mut out: Vec<String> = Vec::new();
    let mut a: usize = 0;
    while a < words.len()
        invariant
            a <= words@.len(),
            out@.len() == a,
            forall|b: int| 0 <= b < a ==> (#[trigger] out@[b])@ == words@[b]@,
        decreases words@.len() - a,
    {
        out.push(words[a].clone());
        a += 1;
    }
    assert(out.deep_view() =~= words.deep_view());
    out
}

/// A copy of the players.
pub(crate) fn copy_players(players: &Vec<Player>) -> (r: Vec<Player>)
    ensures
        r.deep_view() == players.deep_view(),
{
    let mut out: Vec<Player> = Vec::new();
    let mut i: usize = 0;
    while i < players.len()
        invariant
            i <= players@.len(),
            out@.len() == i,
            forall|k: int|
                0 <= k < i ==> (#[trigger] out@[k]).deep_view() == players@[k].deep_view(),
        decreases players@.len() - i,
    {
        out.push(
            Player { uuid: players[i].uuid, used_words: copy_words(&players[i].used_words) },
        );
        i += 1;
    }
    assert(out.deep_view() =~= players.deep_view());
    out
}

impl Anagrams {
    /// The game's invariant.
    pub open spec fn wf(&self) -> bool {
        &&& forall|i: int, j: int|
            0 <= i < j < self.players@.len() ==> (#[trigger] self.players@[i]).uuid != (
            #[trigger] self.players@[j]).uuid
        &&& words_unique(self.players@)
        &&& forall|i: int, a: int|
            0 <= i < self.players@.len() && 0 <= a < self.players@[i].used_words@.len()
                ==> scoring_word((#[trigger] self.players@[i].used_words@[a])@, self.anagram@)
    }

    /// Seat of the player with the given identity, if there is one.
    pub fn find_player(&self, uuid: u128) -> (r: Option<usize>)
        ensures
            match r {
                Some(i) => i == seat_of(self.players@, uuid) && i < self.players@.len(),
                None => seat_of(self.players@, uuid) == self.players@.len(),
            },
    {
        proof {
            lemma_seat_of(self.players@, uuid);
        }
        let mut i: usize = 0;
        while i < self.players.len()
            invariant
                i <= self.players@.len(),
                i <= seat_of(self.players@, uuid) <= self.players@.len(),
                seat_of(self.players@, uuid) < self.players@.len() ==> self.players@[seat_of(
                    self.players@,
                    uuid,
                )].uuid == uuid,
                forall|k: int|
                    0 <= k < seat_of(self.players@, uuid) ==> (#[trigger] self.players@[k]).uuid
                        != uuid,
            decreases self.players@.len() - i,
        {
            if self.players[i].uuid == uuid {
                return Some(i);
            }
            i += 1;
        }
        None
    }

    /// Whether some player has already scored with the word.
    pub fn is_used(&self, word: &Vec<char>) -> (r: bool)
        ensures
            r == word_used(self.players@, word@),
    {
        let mut i: usize = 0;
        while i < self.players.len()
            invariant
                i <= self.players@.len(),
                forall|p: int, a: int|
                    0 <= p < i && 0 <= a < self.players@[p].used_words@.len() ==> (
                    #[trigger] self.players@[p].used_words@[a])@ != word@,
            decreases self.players@.len() - i,
        {
            let mut a: usize = 0;
            while a < self.players[i].used_words.len()
                invariant
                    i < self.players@.len(),
                    a <= self.players@[i as int].used_words@.len(),
                    forall|p: int, a: int|
                        0 <= p < i && 0 <= a < self.players@[p].used_words@.len() ==> (
                        #[trigger] self.players@[p].used_words@[a])@ != word@,
                    forall|b: int|
                        0 <= b < a ==> (#[trigger] self.players@[i as int].used_words@[b])@
                            != word@,
                decreases self.players@[i as int].used_words@.len() - a,
            {
                let used = chars_of(self.players[i].used_words[a].as_str());
                if same_chars(&used, word) {
                    return true;
                }
                a += 1;
            }
            i += 1;
        }
        false
    }

    /// What a valid guess does to the game: the word is added to the words of
    /// the player who made it, and nothing else changes.
    pub open spec fn scored(pre: Anagrams, post: Anagrams, uuid: u128, guess: Seq<char>) -> bool {
        let t = seat_of(pre.players@, uuid);
        &&& post.players@.len() == pre.players@.len()
        &&& forall|j: int|
            0 <= j < pre.players@.len() && j != t ==> (#[trigger] post.players@[j])
                == pre.players@[j]
        &&& post.players@[t].uuid == uuid
        &&& post.players@[t].used_words.deep_view() == pre.players@[t].used_words.deep_view().push(
            guess,
        )
        &&& post.timer == pre.timer
        &&& post.anagram == pre.anagram
        &&& post.original == pre.original
    }

    /// Judges a player's guess and, where it is valid, records it. A guess
    /// that is longer than the anagram is refused. The checks come in this
    /// order then: the word must be long enough, be made of the anagram's
    /// letters, be in the dictionary, come from a player of this game, and
    /// not have scored in this game before.
    pub fn check_guess(&mut self, uuid: u128, guess: &str, global: &GlobalData) -> (r: Result<
        GuessInfo,
        GameError,
    >)
        requires
            old(self).wf(),
            global.wf(),
        ensures
            final(self).wf(),
            r == Self::verdict(*old(self), uuid, guess@, global),
            r != Ok::<GuessInfo, GameError>(GuessInfo::Valid) ==> *final(self) == *old(self),
            r == Ok::<GuessInfo, GameError>(GuessInfo::Valid) ==> Self::scored(
                *old(self),
                *final(self),
                uuid,
                guess@,
            ),
    {
        let length = byte_length(guess);
        if length > MAX_GUESS {
            return Err(GameError::Anagrams(AnagramsError::GuessTooLong));
        }
        if length < MIN_GUESS {
            return Ok(GuessInfo::NotLongEnough);
        }
        let g = chars_of(guess);
        let pool = chars_of(self.anagram.as_str());
        if !is_drawable(&g, &pool) {
            return Ok(GuessInfo::PromptMismatch);
        }
        if !global.is_valid(guess) {
            return Ok(GuessInfo::NotEnglish);
        }
        let t = match self.find_player(uuid) {
            Some(t) => t,
            None => {
                return Err(GameError::Anagrams(AnagramsError::PlayerNotFound));
            },
        };
        if self.is_used(&g) {
            return Ok(GuessInfo::AlreadyUsed);
        }
        let ghost old_words = self.players@[t as int].used_words;
        self.players[t].used_words.push(guess.to_owned());
        proof {
            lemma_seat_of(old(self).players@, uuid);
            let after = self.players@[t as int];
            assert(after.used_words@ == old_words@.push(after.used_words@.last()));
            assert(after.used_words.deep_view() =~= old_words.deep_view().push(guess@));
            assert forall|i: int, a: int, j: int, b: int|
                0 <= i < self.players@.len() && 0 <= a < self.players@[i].used_words@.len() && 0
                    <= j < self.players@.len() && 0 <= b < self.players@[j].used_words@.len() && (i
                    != j || a != b) implies (#[trigger] self.players@[i].used_words@[a])@ != (
            #[trigger] self.players@[j].used_words@[b])@ by {
                let fresh = old_words@.len() as int;
                if !(i == t && a == fresh) {
                    assert(self.players@[i].used_words@[a] == old(self).players@[i].used_words@[a]);
                }
                if !(j == t && b == fresh) {
                    assert(self.players@[j].used_words@[b] == old(self).players@[j].used_words@[b]);
                }
            }
            assert forall|i: int, a: int|
                0 <= i < self.players@.len() && 0 <= a
                    < self.players@[i].used_words@.len() implies scoring_word(
                (#[trigger] self.players@[i].used_words@[a])@,
                self.anagram@,
            ) by {
                if !(i == t && a == old_words@.len()) {
                    assert(self.players@[i].used_words@[a] == old(self).players@[i].used_words@[a]);
                }
            }
        }
        Ok(GuessInfo::Valid)
    }

    /// How a guess is judged.
    pub open spec fn verdict(game: Anagrams, uuid: u128, guess: Seq<char>, global: &GlobalData) -> Result<
        GuessInfo,
        GameError,
    > {
        if byte_len(guess) > MAX_GUESS {
            Err(GameError::Anagrams(AnagramsError::GuessTooLong))
        } else if byte_len(guess) < MIN_GUESS {
            Ok(GuessInfo::NotLongEnough)
        } else if !drawable(guess, game.anagram@) {
            Ok(GuessInfo::PromptMismatch)
        } else if !global.has_word(guess) {
            Ok(GuessInfo::NotEnglish)
        } else if seat_of(game.players@, uuid) >= game.players@.len() {
            Err(GameError::Anagrams(AnagramsError::PlayerNotFound))
        } else if word_used(game.players@, guess) {
            Ok(GuessInfo::AlreadyUsed)
        } else {
            Ok(GuessInfo::Valid)
        }
    }

    /// Each player with the score, in seat order.
    pub open spec fn scores(&self) -> Seq<(u128, u32)> {
        Seq::new(
            self.players@.len(),
            |i: int| (self.players@[i].uuid, score(self.players@[i].used_words.deep_view())),
        )
    }

    /// Each player with the words that scored, in seat order.
    pub open spec fn all_words(&self) -> Seq<(u128, Seq<Seq<char>>)> {
        Seq::new(
            self.players@.len(),
            |i: int| (self.players@[i].uuid, self.players@[i].used_words.deep_view()),
        )
    }
}

/// The information is the result of the game: the word behind the anagram,
/// the players by score, highest first and equal scores in seat order, and
/// every player's words.
pub open spec fn describes(info: PostGameInfo, game: Anagrams) -> bool {
    &&& info.original_word@ == game.original@
    &&& arranged(
        info.leaderboard@,
        game.scores(),
        game.scores().map_values(|e: (u128, u32)| e.1 as u64),
        true,
    )
    &&& info.used_words.deep_view() == game.all_words()
}

/// The result of a game.
pub fn get_post_game_info(game: &Anagrams) -> (r: PostGameInfo)
    requires
        game.wf(),
    ensures
        describes(r, *game),
{
    let n = game.players.len();
    let mut entries: Vec<(u128, u32)> = Vec::new();
    let mut keys: Vec<u64> = Vec::new();
    let mut words: Vec<(u128, Vec<String>)> = Vec::new();
    let mut i: usize = 0;
    while i < n
        invariant
            i <= n,
            n == game.players@.len(),
            game.wf(),
            entries@.len() == i,
            keys@.len() == i,
            words@.len() == i,
            forall|k: int| 0 <= k < i ==> #[trigger] entries@[k] == game.scores()[k],
            forall|k: int| 0 <= k < i ==> #[trigger] keys@[k] == game.scores()[k].1 as u64,
            forall|k: int| 0 <= k < i ==> (#[trigger] words@[k]).deep_view() == game.all_words()[k],
        decreases n - i,
    {
        let player = &game.players[i];
        assert forall|a: int| 0 <= a < player.used_words@.len() implies 2 <= byte_len(
            (#[trigger] player.used_words@[a])@,
        ) <= 28 by {
            assert(scoring_word(game.players@[i as int].used_words@[a]@, game.anagram@));
        }
        let total = player.points();
        entries.push((player.uuid, total));
        keys.push(total as u64);
        let mut copy: Vec<String> = Vec::new();
        let mut a: usize = 0;
        while a < player.used_words.len()
            invariant
                a <= player.used_words@.len(),
                copy@.len() == a,
                forall|b: int| 0 <= b < a ==> (#[trigger] copy@[b])@ == player.used_words@[b]@,
            decreases player.used_words@.len() - a,
        {
            copy.push(player.used_words[a].clone());
            a += 1;
        }
        assert(copy.deep_view() =~= player.used_words.deep_view());
        words.push((player.uuid, copy));
        i += 1;
    }
    let order = sorted_order(&keys, true);
    let mut leaderboard: Vec<(u128, u32)> = Vec::new();
    let mut k: usize = 0;
    while k < n
        invariant
            k <= n,
            n == entries@.len(),
            n == keys@.len(),
            is_ranking(order@, keys@, true),
            leaderboard@.len() == k,
            forall|a: int| 0 <= a < k ==> #[trigger] leaderboard@[a] == entries@[order@[a] as int],
        decreases n - k,
    {
        leaderboard.push(entries[order[k]]);
        k += 1;
    }
    proof {
        assert(entries@ =~= game.scores());
        assert(keys@ =~= game.scores().map_values(|e: (u128, u32)| e.1 as u64));
        assert(words.deep_view() =~= game.all_words());
    }
    PostGameInfo { original_word: game.original.clone(), leaderboard, used_words: words }
}

} // verus!
