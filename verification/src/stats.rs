//! What is told about a game of Word Bomb once it is over.
//!
//! Times are in milliseconds; the two averages are in thousandths.

use vstd::prelude::*;
use crate::ranking::{arranged, is_ranking, sorted_order};
use crate::text::{byte_len, byte_length};
use crate::word_bomb::{alive, since, Player, WordBomb};

verus! {

#[derive(Clone, Debug, PartialEq)]
pub struct PostGameInfo {
    /// The first player, in seat order, that has lives left.
    pub winner: u128,
    /// Time since the game started.
    pub millis_elapsed: u64,
    /// How many words were used, by all players together.
    pub words_used: usize,
    /// Each player's quickest word, quickest first.
    pub fastest_guesses: Vec<(u128, u64)>,
    /// Each player's longest word, longest first.
    pub longest_words: Vec<(u128, String)>,
    /// Each player's average typing speed in thousandths of a word per
    /// minute, highest first.
    pub avg_wpms: Vec<(u128, u64)>,
    /// Each player's average word length in thousandths of a byte, highest first.
    pub avg_word_lengths: Vec<(u128, u64)>,
}

pub struct PostGameInfoView {
    pub winner: u128,
    pub millis_elapsed: u64,
    pub words_used: usize,
    pub fastest_guesses: Seq<(u128, u64)>,
    pub longest_words: Seq<(u128, Seq<char>)>,
    pub avg_wpms: Seq<(u128, u64)>,
    pub avg_word_lengths: Seq<(u128, u64)>,
}

impl DeepView for PostGameInfo {
    type V = PostGameInfoView;

    open spec fn deep_view(&self) -> PostGameInfoView {
        PostGameInfoView {
            winner: self.winner,
            millis_elapsed: self.millis_elapsed,
            words_used: self.words_used,
            fastest_guesses: self.fastest_guesses@,
            longest_words: self.longest_words.deep_view(),
            avg_wpms: self.avg_wpms@,
            avg_word_lengths: self.avg_word_lengths@,
        }
    }
}

/// A word with the time it took.
pub type Used = (u64, Seq<char>);

/// A number as far as 64 bits hold it.
pub open spec fn capped(x: int) -> u64 {
    if x <= u64::MAX {
        x as u64
    } else {
        u64::MAX
    }
}

/// The shortest of the times. The list is not empty.
pub open spec fn fastest(words: Seq<Used>) -> u64
    decreases words.len(),
{
    if words.len() <= 1 {
        words[0].0
    } else if words.last().0 < fastest(words.drop_last()) {
        words.last().0
    } else {
        fastest(words.drop_last())
    }
}

/// Position of the longest word; of the last of them where several are as long.
pub open spec fn longest(words: Seq<Used>) -> int
    decreases words.len(),
{
    if words.len() <= 1 {
        0
    } else if byte_len(words.last().1) >= byte_len(words[longest(words.drop_last())].1) {
        words.len() - 1
    } else {
        longest(words.drop_last())
    }
}

/// Typing speed for one word, in thousandths of a word per minute, a word
/// being five bytes: `(len / 5) / (ms / 60000)`, times 1000.
pub open spec fn speed(len: nat, ms: u64) -> u64 {
    if ms == 0 {
        u64::MAX
    } else {
        capped((12_000_000 * len) as int / (ms as int))
    }
}

/// Sum of the typing speeds.
pub open spec fn speed_sum(words: Seq<Used>) -> int
    decreases words.len(),
{
    if words.len() == 0 {
        0
    } else {
        speed_sum(words.drop_last()) + speed(byte_len(words.last().1), words.last().0)
    }
}

/// Sum of the word lengths, in thousandths of a byte.
pub open spec fn length_sum(words: Seq<Used>) -> int
    decreases words.len(),
{
    if words.len() == 0 {
        0
    } else {
        length_sum(words.drop_last()) + capped((1000 * byte_len(words.last().1)) as int)
    }
}

/// Mean typing speed. The list is not empty.
pub open spec fn avg_speed(words: Seq<Used>) -> u64 {
    capped(speed_sum(words) / words.len() as int)
}

/// Mean word length. The list is not empty.
pub open spec fn avg_length(words: Seq<Used>) -> u64 {
    capped(length_sum(words) / words.len() as int)
}

/// The seats of the players that have used a word, ascending.
pub open spec fn typed(players: Seq<Player>) -> Seq<int>
    decreases players.len(),
{
    if players.len() == 0 {
        Seq::empty()
    } else if players.last().used_words@.len() > 0 {
        typed(players.drop_last()).push(players.len() - 1)
    } else {
        typed(players.drop_last())
    }
}

/// How many words were used.
pub open spec fn total_words(players: Seq<Player>) -> nat
    decreases players.len(),
{
    if players.len() == 0 {
        0
    } else {
        total_words(players.drop_last()) + players.last().used_words@.len()
    }
}

/// Seat of the first player with lives left, or the number of seats.
pub open spec fn first_alive(players: Seq<Player>) -> int
    decreases players.len(),
{
    if players.len() == 0 {
        0
    } else if first_alive(players.drop_last()) < players.len() - 1 {
        first_alive(players.drop_last())
    } else if players.last().lives > 0 {
        players.len() - 1
    } else {
        players.len() as int
    }
}

pub proof fn lemma_first_alive(players: Seq<Player>)
    ensures
        0 <= first_alive(players) <= players.len(),
        first_alive(players) < players.len() ==> alive(players, first_alive(players)),
        forall|i: int| 0 <= i < first_alive(players) ==> !alive(players, i),
    decreases players.len(),
{
    if players.len() > 0 {
        lemma_first_alive(players.drop_last());
        assert forall|i: int| 0 <= i < first_alive(players) implies !alive(players, i) by {
            if i < players.len() - 1 {
                assert(!alive(players.drop_last(), i));
            }
        }
    }
}

/// One line of a leaderboard for each player that has used a word, in seat
/// order, with the figure that `stat` gives for the player's words.
pub open spec fn lines(players: Seq<Player>, stat: spec_fn(Seq<Used>) -> u64) -> Seq<(u128, u64)> {
    Seq::new(
        typed(players).len(),
        |k: int|
            (
                players[typed(players)[k]].uuid,
                stat(players[typed(players)[k]].used_words.deep_view()),
            ),
    )
}

/// Each player's longest word, in seat order.
pub open spec fn longest_lines(players: Seq<Player>) -> Seq<(u128, Seq<char>)> {
    Seq::new(
        typed(players).len(),
        |k: int|
            {
                let words = players[typed(players)[k]].used_words.deep_view();
                (players[typed(players)[k]].uuid, words[longest(words)].1)
            },
    )
}

/// The figures of the lines, which they are ranked by.
pub open spec fn figures(lines: Seq<(u128, u64)>) -> Seq<u64> {
    lines.map_values(|e: (u128, u64)| e.1)
}

/// The byte lengths of the words, which they are ranked by.
pub open spec fn lengths(lines: Seq<(u128, Seq<char>)>) -> Seq<u64> {
    lines.map_values(|e: (u128, Seq<char>)| byte_len(e.1) as u64)
}

impl Player {
    /// The shortest time that a word took.
    pub fn fastest(&self) -> (r: u64)
        requires
            self.used_words@.len() > 0,
        ensures
            r == fastest(self.used_words.deep_view()),
    {
        let ghost words = self.used_words.deep_view();
        let mut best: u64 = self.used_words[0].0;
        let mut a: usize = 1;
        while a < self.used_words.len()
            invariant
                1 <= a <= self.used_words@.len(),
                words == self.used_words.deep_view(),
                best == fastest(words.subrange(0, a as int)),
            decreases self.used_words@.len() - a,
        {
            assert(words.subrange(0, a + 1).drop_last() =~= words.subrange(0, a as int));
            if self.used_words[a].0 < best {
                best = self.used_words[a].0;
            }
            a += 1;
        }
        assert(words.subrange(0, a as int) =~= words);
        best
    }

    /// Position of the longest word.
    pub fn longest(&self) -> (r: usize)
        requires
            self.used_words@.len() > 0,
        ensures
            r == longest(self.used_words.deep_view()),
            r < self.used_words@.len(),
    {
        let ghost words = self.used_words.deep_view();
        let mut best: usize = 0;
        let mut a: usize = 1;
        while a < self.used_words.len()
            invariant
                1 <= a <= self.used_words@.len(),
                words == self.used_words.deep_view(),
                best == longest(words.subrange(0, a as int)),
                best < a,
            decreases self.used_words@.len() - a,
        {
            assert(words.subrange(0, a + 1).drop_last() =~= words.subrange(0, a as int));
            assert(words.subrange(0, a + 1).last().1 == self.used_words@[a as int].1@);
            assert(words.subrange(0, a as int)[best as int].1 == self.used_words@[best as int].1@);
            if byte_length(self.used_words[a].1.as_str()) >= byte_length(self.used_words[best].1.as_str()) {
                best = a;
            }
            a += 1;
        }
        assert(words.subrange(0, a as int) =~= words);
        best
    }

    /// Mean typing speed over the player's words.
    pub fn avg_speed(&self) -> (r: u64)
        requires
            self.used_words@.len() > 0,
        ensures
            r == avg_speed(self.used_words.deep_view()),
    {
        let ghost words = self.used_words.deep_view();
        let n = self.used_words.len();
        let mut sum: u128 = 0;
        let mut a: usize = 0;
        assert(words.subrange(0, 0) =~= Seq::<Used>::empty());
        while a < n
            invariant
                a <= n,
                n == self.used_words@.len(),
                words == self.used_words.deep_view(),
                sum == speed_sum(words.subrange(0, a as int)),
                sum <= a * 0xFFFF_FFFF_FFFF_FFFF,
            decreases n - a,
        {
            assert(words.subrange(0, a + 1).drop_last() =~= words.subrange(0, a as int));
            assert(words.subrange(0, a + 1).last().1 == self.used_words@[a as int].1@);
            let len = byte_length(self.used_words[a].1.as_str());
            let ms = self.used_words[a].0;
            let one: u64 = if ms == 0 {
                u64::MAX
            } else {
                let exact: u128 = 12_000_000u128 * (len as u128) / (ms as u128);
                if exact <= u64::MAX as u128 {
                    exact as u64
                } else {
                    u64::MAX
                }
            };
            sum = sum + one as u128;
            a += 1;
        }
        assert(words.subrange(0, a as int) =~= words);
        let mean: u128 = sum / (n as u128);
        if mean <= u64::MAX as u128 {
            mean as u64
        } else {
            u64::MAX
        }
    }

    /// Mean length of the player's words.
    pub fn avg_length(&self) -> (r: u64)
        requires
            self.used_words@.len() > 0,
        ensures
            r == avg_length(self.used_words.deep_view()),
    {
        let ghost words = self.used_words.deep_view();
        let n = self.used_words.len();
        let mut sum: u128 = 0;
        let mut a: usize = 0;
        assert(words.subrange(0, 0) =~= Seq::<Used>::empty());
        while a < n
            invariant
                a <= n,
                n == self.used_words@.len(),
                words == self.used_words.deep_view(),
                sum == length_sum(words.subrange(0, a as int)),
                sum <= a * 0xFFFF_FFFF_FFFF_FFFF,
            decreases n - a,
        {
            assert(words.subrange(0, a + 1).drop_last() =~= words.subrange(0, a as int));
            assert(words.subrange(0, a + 1).last().1 == self.used_words@[a as int].1@);
            let len = byte_length(self.used_words[a].1.as_str());
            let exact: u128 = 1000u128 * (len as u128);
            let one: u64 = if exact <= u64::MAX as u128 {
                exact as u64
            } else {
                u64::MAX
            };
            sum = sum + one as u128;
            a += 1;
        }
        assert(words.subrange(0, a as int) =~= words);
        let mean: u128 = sum / (n as u128);
        if mean <= u64::MAX as u128 {
            mean as u64
        } else {
            u64::MAX
        }
    }
}

/// The lines in ranking order of their figures.
pub fn rank(lines: &Vec<(u128, u64)>, descending: bool) -> (r: Vec<(u128, u64)>)
    ensures
        arranged(r@, lines@, figures(lines@), descending),
{
    let n = lines.len();
    let mut keys: Vec<u64> = Vec::new();
    let mut i: usize = 0;
    while i < n
        invariant
            i <= n,
            n == lines@.len(),
            keys@.len() == i,
            forall|k: int| 0 <= k < i ==> #[trigger] keys@[k] == lines@[k].1,
        decreases n - i,
    {
        keys.push(lines[i].1);
        i += 1;
    }
    assert(keys@ =~= figures(lines@));
    let order = sorted_order(&keys, descending);
    let mut out: Vec<(u128, u64)> = Vec::new();
    let mut k: usize = 0;
    while k < n
        invariant
            k <= n,
            n == lines@.len(),
            n == keys@.len(),
            is_ranking(order@, keys@, descending),
            out@.len() == k,
            forall|a: int| 0 <= a < k ==> #[trigger] out@[a] == lines@[order@[a] as int],
        decreases n - k,
    {
        out.push(lines[order[k]]);
        k += 1;
    }
    out
}

impl WordBomb {
    /// The seats of the players that have used a word.
    pub fn typed_seats(&self) -> (r: Vec<usize>)
        ensures
            r@.len() == typed(self.players@).len(),
            forall|k: int| 0 <= k < r@.len() ==> (#[trigger] r@[k]) as int == typed(self.players@)[k],
            forall|k: int|
                0 <= k < r@.len() ==> (#[trigger] r@[k]) < self.players@.len()
                    && self.players@[r@[k] as int].used_words@.len() > 0,
    {
        let mut out: Vec<usize> = Vec::new();
        let mut i: usize = 0;
        assert(self.players@.subrange(0, 0) =~= Seq::<Player>::empty());
        while i < self.players.len()
            invariant
                i <= self.players@.len(),
                out@.len() == typed(self.players@.subrange(0, i as int)).len(),
                forall|k: int|
                    0 <= k < out@.len() ==> (#[trigger] out@[k]) as int == typed(
                        self.players@.subrange(0, i as int),
                    )[k],
                forall|k: int|
                    0 <= k < out@.len() ==> (#[trigger] out@[k]) < self.players@.len()
                        && self.players@[out@[k] as int].used_words@.len() > 0,
            decreases self.players@.len() - i,
        {
            assert(self.players@.subrange(0, i + 1).drop_last() =~= self.players@.subrange(
                0,
                i as int,
            ));
            if self.players[i].used_words.len() > 0 {
                out.push(i);
            }
            i += 1;
        }
        assert(self.players@.subrange(0, i as int) =~= self.players@);
        out
    }

    /// How many words were used, as far as a `usize` holds the number.
    pub fn words_used(&self) -> (r: usize)
        ensures
            r == if total_words(self.players@) <= usize::MAX {
                total_words(self.players@) as usize
            } else {
                usize::MAX
            },
    {
        let mut total: usize = 0;
        let mut i: usize = 0;
        assert(self.players@.subrange(0, 0) =~= Seq::<Player>::empty());
        while i < self.players.len()
            invariant
                i <= self.players@.len(),
                total == if total_words(self.players@.subrange(0, i as int)) <= usize::MAX {
                    total_words(self.players@.subrange(0, i as int)) as usize
                } else {
                    usize::MAX
                },
            decreases self.players@.len() - i,
        {
            assert(self.players@.subrange(0, i + 1).drop_last() =~= self.players@.subrange(
                0,
                i as int,
            ));
            total = total.saturating_add(self.players[i].used_words.len());
            i += 1;
        }
        assert(self.players@.subrange(0, i as int) =~= self.players@);
        total
    }

    /// The first player, in seat order, that has lives left.
    pub fn winner(&self) -> (r: u128)
        requires
            exists|i: int| alive(self.players@, i),
        ensures
            first_alive(self.players@) < self.players@.len(),
            r == self.players@[first_alive(self.players@)].uuid,
    {
        proof {
            lemma_first_alive(self.players@);
        }
        let mut i: usize = 0;
        while i < self.players.len()
            invariant
                i <= self.players@.len(),
                i <= first_alive(self.players@),
                first_alive(self.players@) <= self.players@.len(),
                first_alive(self.players@) < self.players@.len() ==> alive(
                    self.players@,
                    first_alive(self.players@),
                ),
                forall|k: int| 0 <= k < first_alive(self.players@) ==> !alive(self.players@, k),
                exists|i: int| alive(self.players@, i),
            decreases self.players@.len() - i,
        {
            if self.players[i].lives > 0 {
                assert(alive(self.players@, i as int));
                return self.players[i].uuid;
            }
            i += 1;
        }
        proof {
            let w = choose|i: int| alive(self.players@, i);
            assert(false);
        }
        0
    }
}

/// The information is the result of the game as it stands at the instant
/// `now`: the winner, how long the game took, how many words were used and,
/// for the players that used any, four leaderboards. Where figures are
/// equal, seat order decides.
pub open spec fn describes(info: PostGameInfo, game: WordBomb, now: u64) -> bool {
    &&& first_alive(game.players@) < game.players@.len()
    &&& info.winner == game.players@[first_alive(game.players@)].uuid
    &&& info.millis_elapsed == since(game.started_at, now)
    &&& info.words_used == if total_words(game.players@) <= usize::MAX {
        total_words(game.players@) as usize
    } else {
        usize::MAX
    }
    &&& arranged(
        info.fastest_guesses@,
        lines(game.players@, |w: Seq<Used>| fastest(w)),
        figures(lines(game.players@, |w: Seq<Used>| fastest(w))),
        false,
    )
    &&& arranged(
        info.longest_words.deep_view(),
        longest_lines(game.players@),
        lengths(longest_lines(game.players@)),
        true,
    )
    &&& arranged(
        info.avg_wpms@,
        lines(game.players@, |w: Seq<Used>| avg_speed(w)),
        figures(lines(game.players@, |w: Seq<Used>| avg_speed(w))),
        true,
    )
    &&& arranged(
        info.avg_word_lengths@,
        lines(game.players@, |w: Seq<Used>| avg_length(w)),
        figures(lines(game.players@, |w: Seq<Used>| avg_length(w))),
        true,
    )
}

/// The result of a game that has a player with lives left.
pub fn get_post_game_info(game: &WordBomb, now: u64) -> (r: PostGameInfo)
    requires
        exists|i: int| alive(game.players@, i),
    ensures
        describes(r, *game, now),
{
    let seats = game.typed_seats();
    let n = seats.len();
    let mut quickest: Vec<(u128, u64)> = Vec::new();
    let mut speeds: Vec<(u128, u64)> = Vec::new();
    let mut means: Vec<(u128, u64)> = Vec::new();
    let mut sizes: Vec<u64> = Vec::new();
    let mut k: usize = 0;
    let ghost by_fastest = |w: Seq<Used>| fastest(w);
    let ghost by_speed = |w: Seq<Used>| avg_speed(w);
    let ghost by_length = |w: Seq<Used>| avg_length(w);
    while k < n
        invariant
            k <= n,
            n == seats@.len(),
            n == typed(game.players@).len(),
            forall|k: int| 0 <= k < n ==> (#[trigger] seats@[k]) as int == typed(game.players@)[k],
            forall|k: int|
                0 <= k < n ==> (#[trigger] seats@[k]) < game.players@.len()
                    && game.players@[seats@[k] as int].used_words@.len() > 0,
            by_fastest == (|w: Seq<Used>| fastest(w)),
            by_speed == (|w: Seq<Used>| avg_speed(w)),
            by_length == (|w: Seq<Used>| avg_length(w)),
            quickest@.len() == k,
            speeds@.len() == k,
            means@.len() == k,
            sizes@.len() == k,
            forall|a: int| 0 <= a < k ==> #[trigger] quickest@[a] == lines(game.players@, by_fastest)[a],
            forall|a: int| 0 <= a < k ==> #[trigger] speeds@[a] == lines(game.players@, by_speed)[a],
            forall|a: int| 0 <= a < k ==> #[trigger] means@[a] == lines(game.players@, by_length)[a],
            forall|a: int| 0 <= a < k ==> #[trigger] sizes@[a] == lengths(longest_lines(game.players@))[a],
        decreases n - k,
    {
        let player = &game.players[seats[k]];
        quickest.push((player.uuid, player.fastest()));
        speeds.push((player.uuid, player.avg_speed()));
        means.push((player.uuid, player.avg_length()));
        let at = player.longest();
        assert(player.used_words.deep_view()[at as int].1 == player.used_words@[at as int].1@);
        assert(longest_lines(game.players@)[k as int].1 == player.used_words@[at as int].1@);
        sizes.push(byte_length(player.used_words[at].1.as_str()) as u64);
        k += 1;
    }
    proof {
        assert(quickest@ =~= lines(game.players@, by_fastest));
        assert(speeds@ =~= lines(game.players@, by_speed));
        assert(means@ =~= lines(game.players@, by_length));
        assert(sizes@ =~= lengths(longest_lines(game.players@)));
    }
    let order = sorted_order(&sizes, true);
    let mut longest_words: Vec<(u128, String)> = Vec::new();
    let mut a: usize = 0;
    while a < n
        invariant
            a <= n,
            n == seats@.len(),
            n == typed(game.players@).len(),
            n == sizes@.len(),
            forall|k: int| 0 <= k < n ==> (#[trigger] seats@[k]) as int == typed(game.players@)[k],
            forall|k: int|
                0 <= k < n ==> (#[trigger] seats@[k]) < game.players@.len()
                    && game.players@[seats@[k] as int].used_words@.len() > 0,
            is_ranking(order@, sizes@, true),
            longest_words@.len() == a,
            forall|b: int|
                0 <= b < a ==> (#[trigger] longest_words@[b]).deep_view() == longest_lines(
                    game.players@,
                )[order@[b] as int],
        decreases n - a,
    {
        let player = &game.players[seats[order[a]]];
        let at = player.longest();
        assert(player.used_words.deep_view()[at as int].1 == player.used_words@[at as int].1@);
        longest_words.push((player.uuid, player.used_words[at].1.clone()));
        a += 1;
    }
    proof {
        let out = longest_words.deep_view();
        assert(out.len() == n);
        assert forall|b: int| 0 <= b < out.len() implies #[trigger] out[b] == longest_lines(
            game.players@,
        )[order@[b] as int] by {
            assert(out[b] == longest_words@[b].deep_view());
        }
    }
    PostGameInfo {
        winner: game.winner(),
        millis_elapsed: if now >= game.started_at {
            now - game.started_at
        } else {
            0
        },
        words_used: game.words_used(),
        fastest_guesses: rank(&quickest, false),
        longest_words,
        avg_wpms: rank(&speeds, true),
        avg_word_lengths: rank(&means, true),
    }
}

} // verus!
