//! Word Bomb: players take turns to type a word that contains the prompt
//! before the timer runs out, and lose a life when it does.

use vstd::prelude::*;
use crate::error::{GameError, WordBombError};
use crate::global::{GlobalData, Prompts};
use crate::outside::random_between;
use crate::text::{chars_of, contains_chars, contains_text, is_lower_letter, same_chars};

verus! {

/// Shortest timer, in milliseconds, that a turn can be left with.
pub const MIN_TIMER: u64 = 6_000;

/// Bounds, in milliseconds, of a freshly drawn timer.
pub const TIMER_LOW: u64 = 10_000;

pub const TIMER_HIGH: u64 = 30_000;

/// Lives that a player starts with.
pub const START_LIVES: u128 = 2;

/// How often a new prompt is drawn at most when the draw repeats the old one.
pub const PROMPT_DRAWS: usize = 10;

#[derive(Clone, Copy, Debug, PartialEq, Eq, Structural)]
pub struct WordBombSettings {
    pub min_wpm: usize,
}

/// The turn timer. Times are in milliseconds.
#[derive(Clone, Copy, Debug, PartialEq, Eq, Structural)]
pub struct Timer {
    /// Handle of the pending timeout task.
    pub task: u64,
    pub start: u64,
    pub length: u64,
}

#[derive(Clone, Debug, PartialEq)]
pub struct Player {
    pub uuid: u128,
    pub input: String,
    /// Lives left. A player has never more than two beyond the number of
    /// words that it has used, so one more always fits.
    pub lives: u128,
    /// Each accepted word with the time since the timer's start.
    pub used_words: Vec<(u64, String)>,
    /// The lowercase letters typed in accepted words since the last extra life.
    pub used_letters: Vec<char>,
}

pub struct PlayerView {
    pub uuid: u128,
    pub input: Seq<char>,
    pub lives: u128,
    pub used_words: Seq<(u64, Seq<char>)>,
    pub used_letters: Seq<char>,
}

impl DeepView for Player {
    type V = PlayerView;

    open spec fn deep_view(&self) -> PlayerView {
        PlayerView {
            uuid: self.uuid,
            input: self.input@,
            lives: self.lives,
            used_words: self.used_words.deep_view(),
            used_letters: self.used_letters@,
        }
    }
}

#[derive(Clone, Debug, PartialEq)]
pub struct WordBomb {
    pub settings: WordBombSettings,
    pub started_at: u64,
    pub timer: Timer,
    pub prompt: String,
    pub prompt_uses: u8,
    pub missed_prompts: Vec<String>,
    pub players: Vec<Player>,
    pub turn: u128,
}

#[derive(Clone, Copy, Debug, PartialEq, Eq, Structural)]
pub enum GuessInfo {
    PromptNotIn,
    NotEnglish,
    AlreadyUsed,
    Valid { extra_life: bool },
}

/// The player has the given identity and is as at the start of a game: two
/// lives, nothing typed.
pub open spec fn is_fresh(player: Player, uuid: u128) -> bool {
    &&& player.uuid == uuid
    &&& player.lives == 2
    &&& player.input@.len() == 0
    &&& player.used_words@.len() == 0
    &&& player.used_letters@.len() == 0
}

/// The player in seat `i` has lives left.
pub open spec fn alive(players: Seq<Player>, i: int) -> bool {
    0 <= i < players.len() && players[i].lives > 0
}

/// How many players have lives left.
pub open spec fn alive_count(players: Seq<Player>) -> nat
    decreases players.len(),
{
    if players.len() == 0 {
        0
    } else {
        alive_count(players.drop_last()) + if players.last().lives > 0 {
            1nat
        } else {
            0nat
        }
    }
}

/// No two seats hold the same player.
pub open spec fn ids_distinct(players: Seq<Player>) -> bool {
    forall|i: int, j: int|
        0 <= i < j < players.len() ==> (#[trigger] players[i]).uuid != (#[trigger] players[j]).uuid
}

/// Seat of the player with the given identity, or the number of seats.
pub open spec fn seat_of(players: Seq<Player>, id: u128) -> int
    decreases players.len(),
{
    if players.len() == 0 {
        0
    } else if seat_of(players.drop_last(), id) < players.len() - 1 {
        seat_of(players.drop_last(), id)
    } else if players.last().uuid == id {
        players.len() - 1
    } else {
        players.len() as int
    }
}

/// Some player has already used the word.
pub open spec fn word_used(players: Seq<Player>, word: Seq<char>) -> bool {
    exists|i: int, a: int|
        0 <= i < players.len() && 0 <= a < players[i].used_words@.len() && (
        #[trigger] players[i].used_words@[a]).1@ == word
}

/// No word was used twice, by one player or by two.
pub open spec fn words_unique(players: Seq<Player>) -> bool {
    forall|i: int, a: int, j: int, b: int|
        0 <= i < players.len() && 0 <= a < players[i].used_words@.len() && 0 <= j < players.len()
            && 0 <= b < players[j].used_words@.len() && (i != j || a != b) ==> (
        #[trigger] players[i].used_words@[a]).1@ != (#[trigger] players[j].used_words@[b]).1@
}

/// The letters that earn an extra life are all there: every lowercase letter
/// but `x` and `z`.
pub open spec fn covers(letters: Seq<char>) -> bool {
    forall|c: char| is_lower_letter(c) && c != 'x' && c != 'z' ==> letters.contains(c)
}

/// The letters of a player after a word: each lowercase letter of the word
/// that was not there yet is appended, in the order of the word.
pub open spec fn add_letters(letters: Seq<char>, word: Seq<char>) -> Seq<char>
    decreases word.len(),
{
    if word.len() == 0 {
        letters
    } else {
        let before = add_letters(letters, word.drop_last());
        let c = word.last();
        if is_lower_letter(c) && !before.contains(c) {
            before.push(c)
        } else {
            before
        }
    }
}

/// A player's letters are lowercase letters, each once, and do not yet earn
/// an extra life.
pub open spec fn letters_ok(letters: Seq<char>) -> bool {
    &&& letters.no_duplicates()
    &&& forall|k: int| 0 <= k < letters.len() ==> is_lower_letter(#[trigger] letters[k])
    &&& !covers(letters)
}

/// The seat `d` places after seat `t`, going round a table of `n` seats.
pub open spec fn seat_after(t: int, d: int, n: int) -> int {
    if t + d < n {
        t + d
    } else {
        t + d - n
    }
}

/// The first seat after `t`, going round and starting `d` places on, whose
/// player has lives left; `t` itself where there is none.
pub open spec fn next_alive(players: Seq<Player>, t: int, d: int) -> int
    decreases players.len() - d,
{
    if d < 1 || d >= players.len() {
        t
    } else if players[seat_after(t, d, players.len() as int)].lives > 0 {
        seat_after(t, d, players.len() as int)
    } else {
        next_alive(players, t, d + 1)
    }
}

/// What is left of a timer after some time has passed, never under the minimum.
pub open spec fn trimmed(length: u64, elapsed: u64) -> u64 {
    if length - elapsed >= MIN_TIMER {
        (length - elapsed) as u64
    } else {
        MIN_TIMER
    }
}

/// Time between two instants; zero where the second is not after the first.
pub open spec fn since(start: u64, now: u64) -> u64 {
    if now >= start {
        (now - start) as u64
    } else {
        0
    }
}

pub proof fn lemma_alive_count_update(players: Seq<Player>, t: int, p: Player)
    requires
        0 <= t < players.len(),
    ensures
        alive_count(players.update(t, p)) == alive_count(players) - (if players[t].lives > 0 {
            1int
        } else {
            0int
        }) + (if p.lives > 0 {
            1int
        } else {
            0int
        }),
    decreases players.len(),
{
    let after = players.update(t, p);
    if t == players.len() - 1 {
        assert(after.drop_last() =~= players.drop_last());
    } else {
        assert(after.drop_last() =~= players.drop_last().update(t, p));
        lemma_alive_count_update(players.drop_last(), t, p);
    }
}

pub proof fn lemma_alive_count_bounds(players: Seq<Player>)
    ensures
        alive_count(players) <= players.len(),
        alive_count(players) >= 1 <==> exists|i: int| alive(players, i),
        alive_count(players) >= 2 <==> exists|i: int, j: int|
            i != j && alive(players, i) && alive(players, j),
    decreases players.len(),
{
    if players.len() > 0 {
        let rest = players.drop_last();
        let n = players.len() - 1;
        lemma_alive_count_bounds(rest);
        assert forall|i: int| alive(rest, i) implies alive(players, i) by {}
        if alive_count(rest) >= 1 {
            let i = choose|i: int| alive(rest, i);
            assert(alive(players, i));
        }
        if alive_count(rest) >= 2 {
            let (i, j) = choose|i: int, j: int| i != j && alive(rest, i) && alive(rest, j);
            assert(alive(players, i) && alive(players, j));
        }
        if players.last().lives > 0 {
            assert(alive(players, n));
            if alive_count(rest) >= 1 {
                let i = choose|i: int| alive(rest, i);
                assert(i != n && alive(players, i) && alive(players, n));
            }
        }
        if exists|i: int| alive(players, i) {
            let i = choose|i: int| alive(players, i);
            if i < n {
                assert(alive(rest, i));
            }
        }
        if exists|i: int, j: int| i != j && alive(players, i) && alive(players, j) {
            let (i, j) = choose|i: int, j: int| i != j && alive(players, i) && alive(players, j);
            if i < n && j < n {
                assert(alive(rest, i) && alive(rest, j));
            } else if i < n {
                assert(alive(rest, i));
            } else {
                assert(alive(rest, j));
            }
        }
    }
}

pub proof fn lemma_seat_of(players: Seq<Player>, id: u128)
    ensures
        0 <= seat_of(players, id) <= players.len(),
        seat_of(players, id) < players.len() ==> players[seat_of(players, id)].uuid == id,
        forall|i: int| 0 <= i < seat_of(players, id) ==> (#[trigger] players[i]).uuid != id,
    decreases players.len(),
{
    if players.len() > 0 {
        lemma_seat_of(players.drop_last(), id);
        assert forall|i: int| 0 <= i < seat_of(players, id) implies (#[trigger] players[i]).uuid
            != id by {
            if i < players.len() - 1 {
                assert(players.drop_last()[i] == players[i]);
            }
        }
    }
}

/// Players with the same identities, one by one, sit in the same seats.
pub proof fn lemma_same_seats(a: Seq<Player>, b: Seq<Player>, id: u128)
    requires
        a.len() == b.len(),
        forall|i: int| 0 <= i < a.len() ==> (#[trigger] a[i]).uuid == b[i].uuid,
    ensures
        seat_of(a, id) == seat_of(b, id),
    decreases a.len(),
{
    if a.len() > 0 {
        lemma_same_seats(a.drop_last(), b.drop_last(), id);
    }
}

/// The next player with lives left is found wherever another one exists.
pub proof fn lemma_next_alive(players: Seq<Player>, t: int, d: int)
    requires
        0 <= t < players.len(),
        1 <= d,
    ensures
        0 <= next_alive(players, t, d) < players.len(),
        (exists|e: int| d <= e < players.len() && alive(players, seat_after(t, e, players.len() as int)))
            ==> alive(players, next_alive(players, t, d)) && next_alive(players, t, d) != t,
    decreases players.len() - d,
{
    let n = players.len() as int;
    if d < n && !(players[seat_after(t, d, n)].lives > 0) {
        lemma_next_alive(players, t, d + 1);
        if exists|e: int| d <= e < n && alive(players, seat_after(t, e, n)) {
            let e = choose|e: int| d <= e < n && alive(players, seat_after(t, e, n));
            assert(d + 1 <= e < n && alive(players, seat_after(t, e, n)));
        }
    }
}

/// Where nobody but the player in seat `t` has lives left, the search for the
/// next player with lives ends at `t`.
pub proof fn lemma_no_rival(players: Seq<Player>, t: int, d: int)
    requires
        0 <= t < players.len(),
        1 <= d,
        forall|j: int| j != t ==> !alive(players, j),
    ensures
        next_alive(players, t, d) == t,
    decreases players.len() - d,
{
    let n = players.len() as int;
    if d < n {
        assert(seat_after(t, d, n) != t);
        assert(!alive(players, seat_after(t, d, n)));
        lemma_no_rival(players, t, d + 1);
    }
}

/// Every seat but `t` is some number of places after `t`.
pub proof fn lemma_seat_reached(t: int, j: int, n: int)
    requires
        0 <= t < n,
        0 <= j < n,
        j != t,
    ensures
        exists|e: int| 1 <= e < n && seat_after(t, e, n) == j,
{
    if j > t {
        assert(seat_after(t, j - t, n) == j);
    } else {
        assert(seat_after(t, j - t + n, n) == j);
    }
}

pub proof fn lemma_add_letters(letters: Seq<char>, word: Seq<char>)
    requires
        letters.no_duplicates(),
        forall|k: int| 0 <= k < letters.len() ==> is_lower_letter(#[trigger] letters[k]),
    ensures
        add_letters(letters, word).no_duplicates(),
        forall|k: int|
            0 <= k < add_letters(letters, word).len() ==> is_lower_letter(
                #[trigger] add_letters(letters, word)[k],
            ),
        forall|c: char|
            add_letters(letters, word).contains(c) <==> letters.contains(c) || (is_lower_letter(c)
                && word.contains(c)),
    decreases word.len(),
{
    if word.len() > 0 {
        let rest = word.drop_last();
        let before = add_letters(letters, rest);
        let last = word.last();
        lemma_add_letters(letters, rest);
        assert forall|c: char|
            add_letters(letters, word).contains(c) <==> letters.contains(c) || (is_lower_letter(c)
                && word.contains(c)) by {
            if word.contains(c) {
                let k = choose|k: int| 0 <= k < word.len() && word[k] == c;
                if k < word.len() - 1 {
                    assert(rest[k] == c);
                }
            }
            if rest.contains(c) {
                let k = choose|k: int| 0 <= k < rest.len() && rest[k] == c;
                assert(word[k] == c);
            }
            assert(word[word.len() - 1] == last);
            if is_lower_letter(last) && !before.contains(last) {
                let after = before.push(last);
                assert(after[after.len() - 1] == last);
                if before.contains(c) {
                    let k = choose|k: int| 0 <= k < before.len() && before[k] == c;
                    assert(after[k] == c);
                }
            }
        }
    }
}

impl Player {
    /// A player at the start of a game.
    pub fn new(uuid: u128) -> (r: Player)
        ensures
            r.uuid == uuid,
            r.lives == 2,
            r.input@.len() == 0,
            r.used_words@.len() == 0,
            r.used_letters@.len() == 0,
    {
        Player {
            uuid,
            input: String::new(),
            lives: START_LIVES,
            used_letters: Vec::new(),
            used_words: Vec::new(),
        }
    }
}

impl Player {
    /// A copy of the player.
    pub fn duplicate(&self) -> (r: Player)
        ensures
            r.deep_view() == self.deep_view(),
            r.uuid == self.uuid,
            r.lives == self.lives,
    {
        let mut used_words: Vec<(u64, String)> = Vec::new();
        let mut a: usize = 0;
        while a < self.used_words.len()
            invariant
                a <= self.used_words@.len(),
                used_words@.len() == a,
                forall|b: int|
                    0 <= b < a ==> (#[trigger] used_words@[b]).deep_view()
                        == self.used_words@[b].deep_view(),
            decreases self.used_words@.len() - a,
        {
            used_words.push((self.used_words[a].0, self.used_words[a].1.clone()));
            a += 1;
        }
        assert(used_words.deep_view() =~= self.used_words.deep_view());
        Player {
            uuid: self.uuid,
            input: self.input.clone(),
            lives: self.lives,
            used_words,
            used_letters: copy_chars(&self.used_letters),
        }
    }
}

/// A copy of the characters.
pub(crate) fn copy_chars(chars: &Vec<char>) -> (r: Vec<char>)
    ensures
        r@ == chars@,
{
    let mut out: Vec<char> = Vec::new();
    let mut i: usize = 0;
    while i < chars.len()
        invariant
            i <= chars@.len(),
            out@ == chars@.subrange(0, i as int),
        decreases chars@.len() - i,
    {
        out.push(chars[i]);
        i += 1;
        assert(out@ =~= chars@.subrange(0, i as int));
    }
    assert(chars@.subrange(0, i as int) =~= chars@);
    out
}

/// A copy of the players.
pub(crate) fn copy_players(players: &Vec<Player>) -> (r: Vec<Player>)
    ensures
        r.deep_view() == players.deep_view(),
{
    let mut out: Vec<Player> = Vec::new();
    let mut i: usize = 0;
    while i < players.len()
        invariant
            i <= players@.len(),
            out@.len() == i,
            forall|k: int|
                0 <= k < i ==> (#[trigger] out@[k]).deep_view() == players@[k].deep_view(),
        decreases players@.len() - i,
    {
        out.push(players[i].duplicate());
        i += 1;
    }
    assert(out.deep_view() =~= players.deep_view());
    out
}

/// A player at the start of a game for each of the identities, in order.
pub(crate) fn fresh_players(ids: &Vec<u128>) -> (r: Vec<Player>)
    ensures
        r@.len() == ids@.len(),
        forall|i: int| 0 <= i < r@.len() ==> is_fresh(#[trigger] r@[i], ids@[i]),
{
    let mut out: Vec<Player> = Vec::new();
    let mut i: usize = 0;
    while i < ids.len()
        invariant
            i <= ids@.len(),
            out@.len() == i,
            forall|k: int| 0 <= k < i ==> is_fresh(#[trigger] out@[k], ids@[k]),
        decreases ids@.len() - i,
    {
        out.push(Player::new(ids[i]));
        i += 1;
    }
    out
}

/// Whether the letters hold `c`.
fn has_letter(letters: &Vec<char>, c: char) -> (r: bool)
    ensures
        r == letters@.contains(c),
{
    let mut i: usize = 0;
    while i < letters.len()
        invariant
            i <= letters.len(),
            forall|k: int| 0 <= k < i ==> letters@[k] != c,
        decreases letters.len() - i,
    {
        if letters[i] == c {
            return true;
        }
        i += 1;
    }
    false
}

/// The letters after a word.
fn merge_letters(letters: &Vec<char>, word: &Vec<char>) -> (r: Vec<char>)
    ensures
        r@ == add_letters(letters@, word@),
{
    let mut out: Vec<char> = Vec::new();
    let mut k: usize = 0;
    while k < letters.len()
        invariant
            k <= letters.len(),
            out@ == letters@.subrange(0, k as int),
        decreases letters.len() - k,
    {
        out.push(letters[k]);
        k += 1;
        assert(out@ =~= letters@.subrange(0, k as int));
    }
    assert(letters@.subrange(0, k as int) =~= letters@);
    let mut i: usize = 0;
    assert(word@.subrange(0, 0) =~= Seq::<char>::empty());
    while i < word.len()
        invariant
            i <= word.len(),
            out@ == add_letters(letters@, word@.subrange(0, i as int)),
        decreases word.len() - i,
    {
        let c = word[i];
        assert(word@.subrange(0, i + 1).drop_last() =~= word@.subrange(0, i as int));
        if c >= 'a' && c <= 'z' && !has_letter(&out, c) {
            out.push(c);
        }
        i += 1;
    }
    assert(word@.subrange(0, i as int) =~= word@);
    out
}

/// Whether the letters earn an extra life.
fn covers_all(letters: &Vec<char>) -> (r: bool)
    ensures
        r == covers(letters@),
{
    let mut b: u8 = 97;
    while b <= 122
        invariant
            97 <= b <= 123,
            forall|c: char|
                is_lower_letter(c) && (c as u8) < b && c != 'x' && c != 'z' ==> letters@.contains(
                    c,
                ),
        decreases 123 - b,
    {
        let c = b as char;
        if c != 'x' && c != 'z' && !has_letter(letters, c) {
            assert(is_lower_letter(c));
            return false;
        }
        assert forall|d: char|
            is_lower_letter(d) && (d as u8) < b + 1 && d != 'x' && d != 'z' implies letters@.contains(
            d,
        ) by {
            if (d as u8) == b {
                assert(d == c);
            }
        }
        b += 1;
    }
    true
}

impl WordBomb {
    /// The game's invariant.
    pub open spec fn wf(&self) -> bool {
        &&& ids_distinct(self.players@)
        &&& alive(self.players@, seat_of(self.players@, self.turn))
        &&& alive_count(self.players@) >= 2
        &&& words_unique(self.players@)
        &&& forall|i: int|
            0 <= i < self.players@.len() ==> letters_ok((#[trigger] self.players@[i]).used_letters@)
        &&& forall|i: int|
            0 <= i < self.players@.len() ==> (#[trigger] self.players@[i]).lives <= START_LIVES
                + self.players@[i].used_words@.len()
        &&& self.prompt_uses <= 1
        &&& MIN_TIMER <= self.timer.length <= TIMER_HIGH
    }

    /// Seat of the player whose turn it is.
    pub open spec fn turn_seat(&self) -> int {
        seat_of(self.players@, self.turn)
    }

    /// Seat of the player with the given identity, if there is one.
    pub fn find_player(&self, uuid: u128) -> (r: Option<usize>)
        ensures
            match r {
                Some(i) => i == seat_of(self.players@, uuid) && i < self.players@.len(),
                None => seat_of(self.players@, uuid) == self.players@.len(),
            },
    {
        proof {
            lemma_seat_of(self.players@, uuid);
        }
        let mut i: usize = 0;
        while i < self.players.len()
            invariant
                i <= self.players@.len(),
                i <= seat_of(self.players@, uuid) <= self.players@.len(),
                seat_of(self.players@, uuid) < self.players@.len() ==> self.players@[seat_of(
                    self.players@,
                    uuid,
                )].uuid == uuid,
                forall|k: int|
                    0 <= k < seat_of(self.players@, uuid) ==> (#[trigger] self.players@[k]).uuid
                        != uuid,
            decreases self.players@.len() - i,
        {
            if self.players[i].uuid == uuid {
                return Some(i);
            }
            i += 1;
        }
        None
    }

    /// The players that have lives left, in seat order.
    pub fn alive_players(&self) -> (r: Vec<&Player>)
        ensures
            r@.len() == alive_count(self.players@),
            r@.map_values(|p: &Player| *p) == self.players@.filter(|p: Player| p.lives > 0),
    {
        let mut out: Vec<&Player> = Vec::new();
        let mut i: usize = 0;
        let ghost is_alive = |p: Player| p.lives > 0;
        let ghost deref = |p: &Player| *p;
        assert(self.players@.subrange(0, 0) =~= Seq::<Player>::empty());
        while i < self.players.len()
            invariant
                i <= self.players@.len(),
                is_alive == (|p: Player| p.lives > 0),
                deref == (|p: &Player| *p),
                out@.len() == alive_count(self.players@.subrange(0, i as int)),
                out@.map_values(deref) == self.players@.subrange(0, i as int).filter(is_alive),
            decreases self.players@.len() - i,
        {
            let ghost before = self.players@.subrange(0, i as int);
            proof {
                assert(self.players@.subrange(0, i + 1) =~= before.push(self.players@[i as int]));
                assert(before.push(self.players@[i as int]).drop_last() =~= before);
                before.lemma_filter_push(self.players@[i as int], is_alive);
            }
            if self.players[i].lives > 0 {
                let ghost old_out = out@;
                out.push(&self.players[i]);
                assert(out@.map_values(deref) =~= old_out.map_values(deref).push(
                    self.players@[i as int],
                ));
            }
            i += 1;
        }
        assert(self.players@.subrange(0, i as int) =~= self.players@);
        out
    }

    /// Whether some player has already used the word.
    pub fn is_used(&self, word: &Vec<char>) -> (r: bool)
        ensures
            r == word_used(self.players@, word@),
    {
        let mut i: usize = 0;
        while i < self.players.len()
            invariant
                i <= self.players@.len(),
                forall|p: int, a: int|
                    0 <= p < i && 0 <= a < self.players@[p].used_words@.len() ==> (
                    #[trigger] self.players@[p].used_words@[a]).1@ != word@,
            decreases self.players@.len() - i,
        {
            let mut a: usize = 0;
            while a < self.players[i].used_words.len()
                invariant
                    i < self.players@.len(),
                    a <= self.players@[i as int].used_words@.len(),
                    forall|p: int, a: int|
                        0 <= p < i && 0 <= a < self.players@[p].used_words@.len() ==> (
                        #[trigger] self.players@[p].used_words@[a]).1@ != word@,
                    forall|b: int|
                        0 <= b < a ==> (#[trigger] self.players@[i as int].used_words@[b]).1@
                            != word@,
                decreases self.players@[i as int].used_words@.len() - a,
            {
                let used = chars_of(self.players[i].used_words[a].1.as_str());
                if same_chars(&used, word) {
                    return true;
                }
                a += 1;
            }
            i += 1;
        }
        false
    }

    /// Takes the candidate as the new prompt unless it repeats the current one.
    pub fn accept_prompt(&mut self, candidate: &str) -> (taken: bool)
        ensures
            taken == (candidate@ != old(self).prompt@),
            final(self).prompt@ == candidate@,
            !taken ==> *final(self) == *old(self),
            taken ==> *final(self) == (WordBomb { prompt: final(self).prompt, ..*old(self) }),
    {
        if !crate::text::same_text(candidate, self.prompt.as_str()) {
            self.prompt = candidate.to_owned();
            true
        } else {
            false
        }
    }

    /// What a change of prompt does: the new prompt is one of the pool for
    /// the game's threshold and reads otherwise than the old one, where the
    /// pool holds such a prompt; the old one stays where it does not.
    pub open spec fn prompt_renewed(pre: WordBomb, post: WordBomb, prompts: &Prompts) -> bool {
        if prompts.has_other(pre.settings.min_wpm, pre.prompt@) {
            post.prompt@ != pre.prompt@ && prompts.pool(pre.settings.min_wpm).contains(
                post.prompt@,
            )
        } else {
            post.prompt == pre.prompt
        }
    }

    /// Resets the prompt's use count and draws a new prompt: from the whole
    /// pool, again where the draw repeats the current prompt, a bounded
    /// number of times; and where every draw has repeated it, from the
    /// prompts of the pool that read otherwise.
    pub fn new_prompt(&mut self, prompts: &Prompts)
        requires
            prompts.usable(),
        ensures
            Self::prompt_renewed(*old(self), *final(self), prompts),
            *final(self) == (WordBomb {
                prompt: final(self).prompt,
                prompt_uses: 0,
                ..*old(self)
            }),
    {
        self.prompt_uses = 0;
        let ghost pool = prompts.pool(self.settings.min_wpm);
        let mut draws: usize = 0;
        while draws < PROMPT_DRAWS
            invariant
                draws <= PROMPT_DRAWS,
                prompts.usable(),
                pool == prompts.pool(old(self).settings.min_wpm),
                *self == (WordBomb { prompt_uses: 0, ..*old(self) }),
            decreases PROMPT_DRAWS - draws,
        {
            let candidate = prompts.random_prompt(self.settings.min_wpm);
            if self.accept_prompt(candidate) {
                proof {
                    let at = choose|at: int| 0 <= at < pool.len() && pool[at] == candidate@;
                    assert(pool[at] != old(self).prompt@);
                }
                return ;
            }
            draws += 1;
        }
        match prompts.random_other(self.settings.min_wpm, self.prompt.as_str()) {
            Some(other) => {
                self.prompt = other.to_owned();
                proof {
                    let at = choose|at: int| 0 <= at < pool.len() && pool[at] == other@;
                    assert(pool[at] != old(self).prompt@);
                }
            },
            None => {},
        }
    }

    /// Some player other than the one whose turn it is has lives left.
    pub open spec fn has_rival(&self) -> bool {
        exists|j: int| j != self.turn_seat() && alive(self.players@, j)
    }

    /// Passes the turn to the next player with lives left; the turn stays
    /// where nobody else has any. Fails where fewer than two players have
    /// lives left: the game is then over, and the turn has passed all the
    /// same.
    pub fn update_turn(&mut self) -> (r: Result<(), GameError>)
        requires
            ids_distinct(old(self).players@),
            old(self).turn_seat() < old(self).players@.len(),
        ensures
            *final(self) == (WordBomb { turn: final(self).turn, ..*old(self) }),
            final(self).turn_seat() == next_alive(
                old(self).players@,
                old(self).turn_seat(),
                1,
            ),
            old(self).has_rival() ==> alive(final(self).players@, final(self).turn_seat())
                && final(self).turn_seat() != old(self).turn_seat(),
            !old(self).has_rival() ==> final(self).turn == old(self).turn,
            alive_count(old(self).players@) < 2 ==> r == Err::<(), GameError>(
                GameError::WordBomb(WordBombError::NoPlayersAlive),
            ),
            alive_count(old(self).players@) >= 2 ==> r is Ok,
    {
        let n = self.players.len();
        let t = match self.find_player(self.turn) {
            Some(t) => t,
            None => {
                return Err(GameError::WordBomb(WordBombError::PlayerNotFound));
            },
        };
        proof {
            lemma_next_alive(self.players@, t as int, 1);
            if self.has_rival() {
                let j = choose|j: int| j != t && alive(self.players@, j);
                lemma_seat_reached(t as int, j, n as int);
            } else {
                lemma_no_rival(self.players@, t as int, 1);
            }
        }
        let mut d: usize = 1;
        let mut passed = false;
        while d < n && !passed
            invariant
                1 <= d <= n,
                t < n,
                n == self.players@.len(),
                *self == (WordBomb { turn: self.turn, ..*old(self) }),
                t == old(self).turn_seat(),
                ids_distinct(self.players@),
                !passed ==> self.turn == old(self).turn && next_alive(self.players@, t as int, 1)
                    == next_alive(self.players@, t as int, d as int),
                passed ==> self.turn_seat() == next_alive(self.players@, t as int, 1),
            decreases n - d + if passed { 0int } else { 1int },
        {
            let seat: usize = if d < n - t { t + d } else { d - (n - t) };
            assert(seat == seat_after(t as int, d as int, n as int));
            if self.players[seat].lives > 0 {
                self.turn = self.players[seat].uuid;
                passed = true;
                proof {
                    lemma_seat_of(self.players@, self.turn);
                    let s = seat_of(self.players@, self.turn);
                    if s != seat {
                        assert(self.players@[s].uuid == self.players@[seat as int].uuid);
                    }
                }
            } else {
                d += 1;
            }
        }
        proof {
            lemma_alive_count_bounds(self.players@);
            lemma_seat_of(self.players@, self.turn);
            lemma_seat_of(old(self).players@, old(self).turn);
        }
        if self.alive_players().len() <= 1 {
            Err(GameError::WordBomb(WordBombError::NoPlayersAlive))
        } else {
            Ok(())
        }
    }

    /// What a valid guess does to the game, but for the choice of the new
    /// prompt: the word and its letters go to the player whose turn it was, who
    /// may earn a life; the timer is trimmed; the turn passes on.
    pub open spec fn recorded(
        pre: WordBomb,
        post: WordBomb,
        guess: Seq<char>,
        now: u64,
        extra_life: bool,
    ) -> bool {
        let t = pre.turn_seat();
        let before = pre.players@[t];
        let after = post.players@[t];
        let elapsed = since(pre.timer.start, now);
        let letters = add_letters(before.used_letters@, guess);
        &&& post.players@.len() == pre.players@.len()
        &&& forall|j: int|
            0 <= j < pre.players@.len() && j != t ==> (#[trigger] post.players@[j])
                == pre.players@[j]
        &&& after.uuid == before.uuid
        &&& after.input == before.input
        &&& after.used_words.deep_view() == before.used_words.deep_view().push((elapsed, guess))
        &&& extra_life == covers(letters)
        &&& after.used_letters@ == if extra_life {
            Seq::<char>::empty()
        } else {
            letters
        }
        &&& after.lives == before.lives + if extra_life {
            1int
        } else {
            0int
        }
        &&& post.timer == (Timer { length: trimmed(pre.timer.length, elapsed), ..pre.timer })
        &&& post.prompt_uses == 0
        &&& post.turn_seat() == next_alive(post.players@, t, 1)
        &&& post.settings == pre.settings
        &&& post.started_at == pre.started_at
        &&& post.missed_prompts == pre.missed_prompts
    }

    /// What is wrong with a guess, if anything. The checks come in this
    /// order: the word must contain the prompt, be in the dictionary, and not
    /// have been used in this game.
    pub open spec fn flaw(&self, guess: Seq<char>, global: &GlobalData) -> Option<GuessInfo> {
        if !contains_text(guess, self.prompt@) {
            Some(GuessInfo::PromptNotIn)
        } else if !global.has_word(guess) {
            Some(GuessInfo::NotEnglish)
        } else if word_used(self.players@, guess) {
            Some(GuessInfo::AlreadyUsed)
        } else {
            None
        }
    }

    /// Judges a guess of the player whose turn it is and, where it is valid,
    /// records it.
    pub fn check_guess(&mut self, guess: &str, global: &GlobalData, now: u64) -> (r: Result<
        GuessInfo,
        GameError,
    >)
        requires
            old(self).wf(),
            global.wf(),
            global.prompts.usable(),
        ensures
            r is Ok,
            match old(self).flaw(guess@, global) {
                Some(flaw) => r->Ok_0 == flaw,
                None => r->Ok_0 is Valid,
            },
            !(r->Ok_0 is Valid) ==> *final(self) == *old(self),
            r->Ok_0 is Valid ==> Self::recorded(
                *old(self),
                *final(self),
                guess@,
                now,
                r->Ok_0->extra_life,
            ),
            r->Ok_0 is Valid ==> Self::prompt_renewed(*old(self), *final(self), &global.prompts),
            final(self).wf(),
            final(self).timer.length >= MIN_TIMER,
    {
        let g = chars_of(guess);
        let p = chars_of(self.prompt.as_str());
        if !contains_chars(&g, &p) {
            return Ok(GuessInfo::PromptNotIn);
        }
        if !global.is_valid(guess) {
            return Ok(GuessInfo::NotEnglish);
        }
        if self.is_used(&g) {
            return Ok(GuessInfo::AlreadyUsed);
        }
        proof {
            lemma_seat_of(self.players@, self.turn);
        }
        let t = match self.find_player(self.turn) {
            Some(t) => t,
            None => {
                return Err(GameError::WordBomb(WordBombError::PlayerNotFound));
            },
        };
        let elapsed: u64 = if now >= self.timer.start {
            now - self.timer.start
        } else {
            0
        };
        let letters = merge_letters(&self.players[t].used_letters, &g);
        let extra_life = covers_all(&letters);
        let ghost before = self.players@[t as int];
        let ghost old_words = before.used_words;
        proof {
            lemma_add_letters(before.used_letters@, g@);
        }

        self.players[t].used_words.push((elapsed, guess.to_owned()));
        let words = self.players[t].used_words.len();
        assert(self.players@[t as int].lives <= START_LIVES + words - 1);
        if extra_life {
            self.players[t].lives = self.players[t].lives + 1;
            self.players[t].used_letters = Vec::new();
        } else {
            self.players[t].used_letters = letters;
        }
        self.timer.length = if self.timer.length >= elapsed && self.timer.length - elapsed
            >= MIN_TIMER {
            self.timer.length - elapsed
        } else {
            MIN_TIMER
        };

        let ghost mid = *self;
        proof {
            let after = mid.players@[t as int];
            assert(after.used_words@ == old_words@.push((elapsed, after.used_words@.last().1)));
            assert(after.used_words.deep_view() =~= old_words.deep_view().push((elapsed, guess@)));
            assert(mid.players@ =~= old(self).players@.update(t as int, after));
            lemma_alive_count_update(old(self).players@, t as int, after);
            assert(ids_distinct(mid.players@));
            assert(!covers(Seq::<char>::empty())) by {
                assert(is_lower_letter('a'));
                assert(!Seq::<char>::empty().contains('a'));
            }
            assert(words_unique(mid.players@)) by {
                assert forall|i: int, a: int, j: int, b: int|
                    0 <= i < mid.players@.len() && 0 <= a < mid.players@[i].used_words@.len() && 0
                        <= j < mid.players@.len() && 0 <= b < mid.players@[j].used_words@.len()
                        && (i != j || a != b) implies (#[trigger] mid.players@[i].used_words@[a]).1@
                    != (#[trigger] mid.players@[j].used_words@[b]).1@ by {
                    let fresh = old_words@.len() as int;
                    let ia = i == t && a == fresh;
                    let jb = j == t && b == fresh;
                    if !ia {
                        assert(mid.players@[i].used_words@[a] == old(
                            self,
                        ).players@[i].used_words@[a]);
                    }
                    if !jb {
                        assert(mid.players@[j].used_words@[b] == old(
                            self,
                        ).players@[j].used_words@[b]);
                    }
                }
            }
            lemma_seat_of(mid.players@, mid.turn);
            lemma_seat_of(old(self).players@, mid.turn);
            let s = seat_of(mid.players@, mid.turn);
            if s != t {
                if s < t {
                    assert(mid.players@[s] == old(self).players@[s]);
                } else {
                    assert(mid.players@[t as int].uuid == mid.turn);
                }
            }
        }
        self.new_prompt(&global.prompts);
        match self.update_turn() {
            Ok(()) => {},
            Err(e) => {
                return Err(e);
            },
        }
        proof {
            lemma_seat_of(self.players@, self.turn);
        }
        Ok(GuessInfo::Valid { extra_life })
    }

    /// What a timeout does to the game before the turn passes on, but for the
    /// choice of the new timer and prompt: the prompt is noted as missed, and
    /// the player whose turn it was loses a life.
    pub open spec fn timed_out(pre: WordBomb, post: WordBomb) -> bool {
        let t = pre.turn_seat();
        let before = pre.players@[t];
        let after = post.players@[t];
        &&& post.players@.len() == pre.players@.len()
        &&& forall|j: int|
            0 <= j < pre.players@.len() && j != t ==> (#[trigger] post.players@[j])
                == pre.players@[j]
        &&& after == (Player { lives: (before.lives - 1) as u128, ..before })
        &&& post.missed_prompts.deep_view() == pre.missed_prompts.deep_view().push(pre.prompt@)
        &&& post.prompt_uses == if pre.prompt_uses == 0 {
            1u8
        } else {
            0u8
        }
        &&& pre.prompt_uses == 0 ==> post.prompt == pre.prompt
        &&& TIMER_LOW <= post.timer.length <= TIMER_HIGH
        &&& post.timer.task == pre.timer.task
        &&& post.timer.start == pre.timer.start
        &&& post.settings == pre.settings
        &&& post.started_at == pre.started_at
    }

    /// How many players have lives left once the player whose turn it is has
    /// lost one.
    pub open spec fn alive_after_miss(&self) -> int {
        alive_count(self.players@) - if self.players@[self.turn_seat()].lives == 1 {
            1int
        } else {
            0int
        }
    }

    /// The player whose turn it is ran out of time: it loses a life, and the
    /// turn passes to the next player with lives left. The prompt stays for
    /// one miss and changes at the second. Fails where fewer than two players
    /// are left with lives: the game is then over, and the turn is with the
    /// one who is left.
    pub fn player_timed_out(&mut self, prompts: &Prompts) -> (r: Result<(), GameError>)
        requires
            old(self).wf(),
            prompts.usable(),
        ensures
            Self::timed_out(*old(self), *final(self)),
            old(self).prompt_uses != 0 ==> Self::prompt_renewed(*old(self), *final(self), prompts),
            alive_count(final(self).players@) == old(self).alive_after_miss(),
            final(self).turn_seat() == next_alive(
                final(self).players@,
                old(self).turn_seat(),
                1,
            ),
            alive(final(self).players@, final(self).turn_seat()),
            old(self).alive_after_miss() >= 2 ==> r is Ok && final(self).wf(),
            old(self).alive_after_miss() < 2 ==> r == Err::<(), GameError>(
                GameError::WordBomb(WordBombError::NoPlayersAlive),
            ) && old(self).alive_after_miss() == 1,
    {
        self.timer.length = random_between(TIMER_LOW, TIMER_HIGH);
        self.missed_prompts.push(self.prompt.clone());
        proof {
            lemma_seat_of(self.players@, self.turn);
            assert(self.missed_prompts.deep_view() =~= old(self).missed_prompts.deep_view().push(
                old(self).prompt@,
            ));
        }
        let t = match self.find_player(self.turn) {
            Some(t) => t,
            None => {
                return Err(GameError::WordBomb(WordBombError::PlayerNotFound));
            },
        };
        self.players[t].lives = self.players[t].lives - 1;
        self.prompt_uses = self.prompt_uses + 1;
        if self.prompt_uses > 1 {
            self.new_prompt(prompts);
        }
        proof {
            let after = self.players@[t as int];
            assert(self.players@ =~= old(self).players@.update(t as int, after));
            lemma_alive_count_update(old(self).players@, t as int, after);
            assert(ids_distinct(self.players@));
            lemma_seat_of(self.players@, self.turn);
            lemma_seat_of(old(self).players@, self.turn);
            let s = seat_of(self.players@, self.turn);
            if s != t {
                if s < t {
                    assert(self.players@[s] == old(self).players@[s]);
                } else {
                    assert(self.players@[t as int].uuid == self.turn);
                }
            }
            assert(words_unique(self.players@)) by {
                assert forall|i: int, a: int, j: int, b: int|
                    0 <= i < self.players@.len() && 0 <= a < self.players@[i].used_words@.len()
                        && 0 <= j < self.players@.len() && 0 <= b
                        < self.players@[j].used_words@.len() && (i != j || a != b) implies (
                #[trigger] self.players@[i].used_words@[a]).1@ != (
                #[trigger] self.players@[j].used_words@[b]).1@ by {
                    assert(self.players@[i].used_words@[a] == old(
                        self,
                    ).players@[i].used_words@[a]);
                    assert(self.players@[j].used_words@[b] == old(
                        self,
                    ).players@[j].used_words@[b]);
                }
            }
        }
        let ghost missed = *self;
        proof {
            lemma_alive_count_bounds(self.players@);
            if !self.has_rival() {
                let (i, j) = choose|i: int, j: int|
                    i != j && alive(old(self).players@, i) && alive(old(self).players@, j);
                let other = if i != t { i } else { j };
                assert(self.players@[other] == old(self).players@[other]);
                assert(alive(self.players@, other));
            }
        }
        let r = self.update_turn();
        proof {
            lemma_seat_of(self.players@, self.turn);
        }
        r
    }
}

} // verus!
