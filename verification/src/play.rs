//! What the messages of a game in play, and the games' timers, do to a room.

use vstd::prelude::*;
use crate::anagrams;
use crate::anagrams::{Anagrams, MAX_GUESS};
use crate::clients::{broadcast, send_to, socket_of, sockets};
use crate::error::{AnagramsError, GameError, WordBombError};
use crate::global::GlobalData;
use crate::lobby::{end_game, game_ended, wrong_state};
use crate::messages::{
    followed_by, nothing, only, Effect, EffectView, PostGameInfo, ServerMessage, ServerMessageView, Task,
    TaskView,
};
use crate::room::{Room, State};
use crate::stats;
use crate::text::{byte_len, byte_length, filter_string, filtered, same_text};
use crate::word_bomb;
use crate::word_bomb::{lemma_alive_count_bounds, GuessInfo, Timer, WordBomb};

verus! {

/// Longest input and longest guess in Word Bomb, in bytes.
pub const MAX_INPUT: usize = 35;

impl Room {
    /// What an input update does: the player's preview is the new input, and
    /// everybody is told.
    pub open spec fn typed(pre: Room, post: Room, uuid: u128, input: Seq<char>, effects: Seq<
        EffectView,
    >) -> bool {
        let game = pre.state->WordBomb_0;
        let after = post.state->WordBomb_0;
        let seat = game.turn_seat();
        &&& post.owner == pre.owner
        &&& post.settings == pre.settings
        &&& post.clients == pre.clients
        &&& post.state is WordBomb
        &&& after.players@.len() == game.players@.len()
        &&& forall|j: int|
            0 <= j < game.players@.len() && j != seat ==> (#[trigger] after.players@[j])
                == game.players@[j]
        &&& after.players@[seat].input@ == input
        &&& after.players@[seat] == (word_bomb::Player {
            input: after.players@[seat].input,
            ..game.players@[seat]
        })
        &&& after == (WordBomb { players: after.players, ..game })
        &&& effects == seq![
            EffectView::Send {
                to: sockets(pre.clients@),
                message: ServerMessageView::WordBombInput { uuid, input },
            },
        ]
    }

    /// Why an input update is refused, if it is: the input is too long, no
    /// game of Word Bomb is on, the sender does not play, or it is another
    /// player's turn.
    pub open spec fn input_refused(&self, uuid: u128, input: Seq<char>) -> Option<GameError> {
        if byte_len(input) > MAX_INPUT {
            Some(GameError::WordBomb(WordBombError::InputTooLong))
        } else if !(self.state is WordBomb) {
            Some(GameError::InvalidState { state: "word bomb" })
        } else if word_bomb::seat_of(self.state->WordBomb_0.players@, uuid)
            >= self.state->WordBomb_0.players@.len() {
            Some(GameError::WordBomb(WordBombError::PlayerNotFound))
        } else if self.state->WordBomb_0.turn != uuid {
            Some(GameError::WordBomb(WordBombError::OutOfTurn))
        } else {
            None
        }
    }

    /// What an input update does, refused or not.
    pub open spec fn input_step(pre: Room, post: Room, uuid: u128, input: Seq<char>, r: Result<
        Vec<Effect>,
        GameError,
    >) -> bool {
        match pre.input_refused(uuid, input) {
            Some(error) => r is Err && same_error(r->Err_0, error) && post == pre,
            None => r is Ok && Self::typed(pre, post, uuid, input, r->Ok_0.deep_view()),
        }
    }

    /// The player whose turn it is has typed: the preview changes.
    pub fn word_bomb_input(&mut self, uuid: u128, new_input: String) -> (r: Result<
        Vec<Effect>,
        GameError,
    >)
        requires
            old(self).wf(),
        ensures
            final(self).wf(),
            Self::input_step(*old(self), *final(self), uuid, new_input@, r),
    {
        if byte_length(new_input.as_str()) > MAX_INPUT {
            return Err(GameError::WordBomb(WordBombError::InputTooLong));
        }
        match &mut self.state {
            State::WordBomb(game) => {
                let seat = match game.find_player(uuid) {
                    Some(seat) => seat,
                    None => {
                        return Err(GameError::WordBomb(WordBombError::PlayerNotFound));
                    },
                };
                proof {
                    word_bomb::lemma_seat_of(game.players@, uuid);
                    word_bomb::lemma_seat_of(game.players@, game.turn);
                }
                if game.turn != uuid {
                    return Err(GameError::WordBomb(WordBombError::OutOfTurn));
                }
                let ghost before = *game;
                game.players[seat].input = new_input.clone();
                proof {
                    let after = game.players@[seat as int];
                    assert(game.players@ =~= before.players@.update(seat as int, after));
                    word_bomb::lemma_alive_count_update(before.players@, seat as int, after);
                    word_bomb::lemma_same_seats(before.players@, game.players@, game.turn);
                    assert(word_bomb::words_unique(game.players@)) by {
                        assert forall|i: int, a: int, j: int, b: int|
                            0 <= i < game.players@.len() && 0 <= a
                                < game.players@[i].used_words@.len() && 0 <= j
                                < game.players@.len() && 0 <= b
                                < game.players@[j].used_words@.len() && (i != j || a
                                != b) implies (#[trigger] game.players@[i].used_words@[a]).1@ != (
                        #[trigger] game.players@[j].used_words@[b]).1@ by {
                            assert(game.players@[i].used_words@[a]
                                == before.players@[i].used_words@[a]);
                            assert(game.players@[j].used_words@[b]
                                == before.players@[j].used_words@[b]);
                        }
                    }
                }
                let told = broadcast(
                    &self.clients,
                    ServerMessage::WordBombInput { uuid, input: new_input },
                );
                Ok(only(told))
            },
            _ => Err(GameError::InvalidState { state: "word bomb" }),
        }
    }

    /// Why a guess is not looked at, if it is not: it is too long, no game of
    /// Word Bomb is on, or it is another player's turn.
    pub open spec fn guess_refused(&self, uuid: u128, guess: Seq<char>) -> Option<GameError> {
        if byte_len(guess) > MAX_INPUT {
            Some(GameError::WordBomb(WordBombError::GuessTooLong))
        } else if !(self.state is WordBomb) {
            Some(GameError::InvalidState { state: "word bomb" })
        } else if self.state->WordBomb_0.turn != uuid {
            Some(GameError::WordBomb(WordBombError::OutOfTurn))
        } else {
            None
        }
    }

    /// What a guess does that is looked at. A flawed guess changes nothing,
    /// and everybody is told the flaw. A valid guess is recorded; everybody
    /// is told the word, whether it earned a life, the new prompt and whose
    /// turn it is; the timeout that was pending is cancelled, and one for the
    /// new turn is started under the handle `task`.
    pub open spec fn guessed(
        pre: Room,
        post: Room,
        uuid: u128,
        guess: Seq<char>,
        room: Seq<char>,
        global: &GlobalData,
        now: u64,
        task: u64,
        effects: Seq<EffectView>,
    ) -> bool {
        let game = pre.state->WordBomb_0;
        let after = post.state->WordBomb_0;
        &&& post.owner == pre.owner
        &&& post.settings == pre.settings
        &&& post.clients == pre.clients
        &&& post.state is WordBomb
        &&& match game.flaw(guess, global) {
            Some(reason) => post.state == pre.state && effects == seq![
                EffectView::Send {
                    to: sockets(pre.clients@),
                    message: ServerMessageView::WordBombInvalidGuess { uuid, reason },
                },
            ],
            None => {
                let extra_life = word_bomb::covers(
                    word_bomb::add_letters(game.players@[game.turn_seat()].used_letters@, guess),
                );
                &&& WordBomb::recorded(
                    game,
                    WordBomb { timer: Timer { task: game.timer.task, ..after.timer }, ..after },
                    guess,
                    now,
                    extra_life,
                )
                &&& after.timer.task == task
                &&& WordBomb::prompt_renewed(game, after, &global.prompts)
                &&& effects == seq![
                    EffectView::Send {
                        to: sockets(pre.clients@),
                        message: ServerMessageView::WordBombPrompt {
                            correct_guess: Some(guess),
                            life_change: if extra_life {
                                1i8
                            } else {
                                0i8
                            },
                            prompt: after.prompt@,
                            turn: after.turn,
                        },
                    },
                    EffectView::Abort { handle: game.timer.task },
                    EffectView::Spawn {
                        handle: task,
                        task: TaskView::WordBombTimer {
                            room,
                            timer_len: after.timer.length,
                            prompt: after.prompt@,
                        },
                    },
                ]
            },
        }
    }

    /// What a guess does, looked at or not. The guess is normalised first.
    pub open spec fn guess_step(
        pre: Room,
        post: Room,
        uuid: u128,
        guess: Seq<char>,
        room: Seq<char>,
        global: &GlobalData,
        now: u64,
        task: u64,
        r: Result<Vec<Effect>, GameError>,
    ) -> bool {
        match pre.guess_refused(uuid, filtered(guess)) {
            Some(error) => r is Err && same_error(r->Err_0, error) && post == pre,
            None => r is Ok && Self::guessed(
                pre,
                post,
                uuid,
                filtered(guess),
                room,
                global,
                now,
                task,
                r->Ok_0.deep_view(),
            ),
        }
    }

    /// A player guesses a word. The guess is normalised first: ASCII letters
    /// are lowercased, and everything that is not alphabetic is dropped.
    pub fn word_bomb_guess(
        &mut self,
        uuid: u128,
        guess: String,
        room: &str,
        global: &GlobalData,
        now: u64,
        task: u64,
    ) -> (r: Result<Vec<Effect>, GameError>)
        requires
            old(self).wf(),
            global.wf(),
            global.prompts.usable(),
        ensures
            final(self).wf(),
            Self::guess_step(*old(self), *final(self), uuid, guess@, room@, global, now, task, r),
            final(self).state is WordBomb ==> final(self).state->WordBomb_0.timer.length
                >= word_bomb::MIN_TIMER,
    {
        let mut guess = guess;
        filter_string(&mut guess);
        if byte_length(guess.as_str()) > MAX_INPUT {
            return Err(GameError::WordBomb(WordBombError::GuessTooLong));
        }
        match &mut self.state {
            State::WordBomb(game) => {
                if game.turn != uuid {
                    return Err(GameError::WordBomb(WordBombError::OutOfTurn));
                }
                let ghost before = *game;
                match game.check_guess(guess.as_str(), global, now) {
                    Ok(GuessInfo::Valid { extra_life }) => {
                        let ghost checked = *game;
                        let told = broadcast(
                            &self.clients,
                            ServerMessage::WordBombPrompt {
                                correct_guess: Some(guess),
                                life_change: if extra_life {
                                    1
                                } else {
                                    0
                                },
                                prompt: game.prompt.clone(),
                                turn: game.turn,
                            },
                        );
                        let abort = Effect::Abort { handle: game.timer.task };
                        game.timer.task = task;
                        let spawn = Effect::Spawn {
                            handle: task,
                            task: Task::WordBombTimer {
                                room: room.to_owned(),
                                timer_len: game.timer.length,
                                prompt: game.prompt.clone(),
                            },
                        };
                        let effects = followed_by(
                            only(told),
                            followed_by(only(abort), only(spawn)),
                        );
                        proof {
                            assert(effects.deep_view() =~= seq![
                                told.deep_view(),
                                abort.deep_view(),
                                spawn.deep_view(),
                            ]);
                            assert(checked == (WordBomb {
                                timer: Timer { task: before.timer.task, ..game.timer },
                                ..*game
                            }));
                        }
                        Ok(effects)
                    },
                    Ok(reason) => {
                        let told = broadcast(
                            &self.clients,
                            ServerMessage::WordBombInvalidGuess { uuid, reason },
                        );
                        Ok(only(told))
                    },
                    Err(error) => Err(error),
                }
            },
            _ => Err(GameError::InvalidState { state: "word bomb" }),
        }
    }

    /// What a timeout does to a game that goes on: the player whose turn it
    /// was loses a life, the turn passes on, the prompt changes if it was
    /// missed before, everybody is told the prompt and whose turn it is, and
    /// a timeout for the new turn is started under the handle `task`.
    pub open spec fn timed_out(
        pre: Room,
        post: Room,
        room: Seq<char>,
        global: &GlobalData,
        task: u64,
        effects: Seq<EffectView>,
    ) -> bool {
        let game = pre.state->WordBomb_0;
        let after = post.state->WordBomb_0;
        &&& post.owner == pre.owner
        &&& post.settings == pre.settings
        &&& post.clients == pre.clients
        &&& post.state is WordBomb
        &&& WordBomb::timed_out(
            game,
            WordBomb { timer: Timer { task: game.timer.task, ..after.timer }, ..after },
        )
        &&& game.prompt_uses != 0 ==> WordBomb::prompt_renewed(game, after, &global.prompts)
        &&& after.turn_seat() == word_bomb::next_alive(after.players@, game.turn_seat(), 1)
        &&& after.timer.task == task
        &&& effects == seq![
            EffectView::Send {
                to: sockets(pre.clients@),
                message: ServerMessageView::WordBombPrompt {
                    correct_guess: None,
                    life_change: -1i8,
                    prompt: after.prompt@,
                    turn: after.turn,
                },
            },
            EffectView::Spawn {
                handle: task,
                task: TaskView::WordBombTimer {
                    room,
                    timer_len: after.timer.length,
                    prompt: after.prompt@,
                },
            },
        ]
    }

    /// What a timeout does that leaves fewer than two players with lives:
    /// the turn passes to the player who is left, and the game ends, with the
    /// result of the game as the timeout left it.
    pub open spec fn timed_out_for_good(pre: Room, post: Room, now: u64, effects: Seq<EffectView>) -> bool {
        &&& post.settings == pre.settings
        &&& exists|last: WordBomb, info: PostGameInfo|
            #![trigger stats::describes(info->WordBomb_0, last, now)]
            {
                &&& WordBomb::timed_out(pre.state->WordBomb_0, last)
                &&& last.turn_seat() == word_bomb::next_alive(
                    last.players@,
                    pre.state->WordBomb_0.turn_seat(),
                    1,
                )
                &&& word_bomb::alive(last.players@, last.turn_seat())
                &&& info is WordBomb
                &&& stats::describes(info->WordBomb_0, last, now)
                &&& game_ended(
                    pre.clients@,
                    pre.owner,
                    post.state,
                    post.clients@,
                    post.owner,
                    info,
                    effects,
                )
            }
    }

    /// What the end of a turn's time does. It fails where no game of Word
    /// Bomb is on. Where the prompt has changed since the timer was started,
    /// the timeout is out of date and nothing happens. Otherwise the player
    /// whose turn it is loses a life, and the game goes on if two players
    /// have lives left then, and ends if not.
    pub open spec fn timer_step(
        pre: Room,
        post: Room,
        original_prompt: Seq<char>,
        room: Seq<char>,
        global: &GlobalData,
        now: u64,
        task: u64,
        r: Result<Vec<Effect>, GameError>,
    ) -> bool {
        if !(pre.state is WordBomb) {
            wrong_state(r, "word bomb"@) && post == pre
        } else if pre.state->WordBomb_0.prompt@ != original_prompt {
            r is Ok && r->Ok_0.deep_view().len() == 0 && post == pre
        } else if pre.state->WordBomb_0.alive_after_miss() >= 2 {
            r is Ok && Self::timed_out(pre, post, room, global, task, r->Ok_0.deep_view())
        } else {
            r is Ok && Self::timed_out_for_good(pre, post, now, r->Ok_0.deep_view())
        }
    }

    /// After a turn's time: the caller waits for the timer's length and then
    /// calls this with the prompt that the timer was started for.
    pub fn word_bomb_timer(
        &mut self,
        original_prompt: &str,
        room: &str,
        global: &GlobalData,
        now: u64,
        task: u64,
    ) -> (r: Result<Vec<Effect>, GameError>)
        requires
            old(self).wf(),
            global.prompts.usable(),
        ensures
            final(self).wf(),
            Self::timer_step(
                *old(self),
                *final(self),
                original_prompt@,
                room@,
                global,
                now,
                task,
                r,
            ),
    {
        match &mut self.state {
            State::WordBomb(game) => {
                if !same_text(original_prompt, game.prompt.as_str()) {
                    return Ok(nothing());
                }
                match game.player_timed_out(&global.prompts) {
                    Ok(()) => {
                        let told = broadcast(
                            &self.clients,
                            ServerMessage::WordBombPrompt {
                                correct_guess: None,
                                life_change: -1,
                                prompt: game.prompt.clone(),
                                turn: game.turn,
                            },
                        );
                        let ghost passed = *game;
                        game.timer.task = task;
                        assert(passed == (WordBomb {
                            timer: Timer { task: passed.timer.task, ..game.timer },
                            ..*game
                        }));
                        let spawn = Effect::Spawn {
                            handle: task,
                            task: Task::WordBombTimer {
                                room: room.to_owned(),
                                timer_len: game.timer.length,
                                prompt: game.prompt.clone(),
                            },
                        };
                        let effects = followed_by(only(told), only(spawn));
                        proof {
                            assert(effects.deep_view() =~= seq![told.deep_view(), spawn.deep_view()]);
                        }
                        Ok(effects)
                    },
                    Err(_) => {
                        proof {
                            lemma_alive_count_bounds(game.players@);
                        }
                        let ghost last = *game;
                        let info = PostGameInfo::WordBomb(stats::get_post_game_info(game, now));
                        let effects = end_game(
                            &mut self.state,
                            &mut self.clients,
                            &mut self.owner,
                            info,
                        );
                        proof {
                            crate::clients::lemma_kept(old(self).clients@);
                            assert(stats::describes(info->WordBomb_0, last, now));
                        }
                        Ok(effects)
                    },
                }
            },
            _ => Err(GameError::InvalidState { state: "word bomb" }),
        }
    }

    /// Why a guess in Anagrams is not looked at, if it is not: it is too
    /// long, or no game of Anagrams is on.
    pub open spec fn anagram_refused(&self, guess: Seq<char>) -> Option<GameError> {
        if byte_len(guess) > MAX_GUESS {
            Some(GameError::Anagrams(AnagramsError::GuessTooLong))
        } else if !(self.state is Anagrams) {
            Some(GameError::InvalidState { state: "anagrams" })
        } else {
            None
        }
    }

    /// What a guess in Anagrams does that is looked at and comes from a
    /// player. A valid guess is recorded, and everybody is told; a flawed one
    /// changes nothing, and its sender alone is told the flaw.
    pub open spec fn anagram_guessed(
        pre: Room,
        post: Room,
        uuid: u128,
        guess: Seq<char>,
        verdict: anagrams::GuessInfo,
        effects: Seq<EffectView>,
    ) -> bool {
        &&& post.owner == pre.owner
        &&& post.settings == pre.settings
        &&& post.clients == pre.clients
        &&& post.state is Anagrams
        &&& if verdict == anagrams::GuessInfo::Valid {
            &&& Anagrams::scored(pre.state->Anagrams_0, post.state->Anagrams_0, uuid, guess)
            &&& effects == seq![
                EffectView::Send {
                    to: sockets(pre.clients@),
                    message: ServerMessageView::AnagramsCorrectGuess { uuid, guess },
                },
            ]
        } else {
            &&& post.state == pre.state
            &&& effects == seq![
                EffectView::Send {
                    to: socket_of(pre.clients@, uuid),
                    message: ServerMessageView::AnagramsInvalidGuess { reason: verdict },
                },
            ]
        }
    }

    /// What a guess in Anagrams does, looked at or not. The guess is
    /// normalised first.
    pub open spec fn anagram_step(
        pre: Room,
        post: Room,
        uuid: u128,
        guess: Seq<char>,
        global: &GlobalData,
        r: Result<Vec<Effect>, GameError>,
    ) -> bool {
        match pre.anagram_refused(filtered(guess)) {
            Some(error) => r is Err && same_error(r->Err_0, error) && post == pre,
            None => match Anagrams::verdict(pre.state->Anagrams_0, uuid, filtered(guess), global) {
                Err(error) => r is Err && same_error(r->Err_0, error) && post == pre,
                Ok(verdict) => r is Ok && Self::anagram_guessed(
                    pre,
                    post,
                    uuid,
                    filtered(guess),
                    verdict,
                    r->Ok_0.deep_view(),
                ),
            },
        }
    }

    /// A player guesses a word in Anagrams. The guess is normalised first,
    /// as in Word Bomb.
    pub fn anagrams_guess(&mut self, uuid: u128, guess: String, global: &GlobalData) -> (r: Result<
        Vec<Effect>,
        GameError,
    >)
        requires
            old(self).wf(),
            global.wf(),
        ensures
            final(self).wf(),
            Self::anagram_step(*old(self), *final(self), uuid, guess@, global, r),
    {
        let mut guess = guess;
        filter_string(&mut guess);
        if byte_length(guess.as_str()) > MAX_GUESS {
            return Err(GameError::Anagrams(AnagramsError::GuessTooLong));
        }
        match &mut self.state {
            State::Anagrams(game) => {
                match game.check_guess(uuid, guess.as_str(), global) {
                    Ok(anagrams::GuessInfo::Valid) => {
                        let told = broadcast(
                            &self.clients,
                            ServerMessage::AnagramsCorrectGuess { uuid, guess },
                        );
                        Ok(only(told))
                    },
                    Ok(reason) => {
                        let told = send_to(
                            &self.clients,
                            uuid,
                            ServerMessage::AnagramsInvalidGuess { reason },
                        );
                        Ok(only(told))
                    },
                    Err(error) => Err(error),
                }
            },
            _ => Err(GameError::InvalidState { state: "anagrams" }),
        }
    }

    /// What the end of a game of Anagrams' time does: it fails where no game
    /// of Anagrams is on; otherwise the game ends with its result.
    pub open spec fn anagrams_end_step(pre: Room, post: Room, r: Result<Vec<Effect>, GameError>) -> bool {
        if !(pre.state is Anagrams) {
            wrong_state(r, "anagrams"@) && post == pre
        } else {
            &&& r is Ok
            &&& post.settings == pre.settings
            &&& exists|info: PostGameInfo|
                #![trigger anagrams::describes(info->Anagrams_0, pre.state->Anagrams_0)]
                info is Anagrams && anagrams::describes(info->Anagrams_0, pre.state->Anagrams_0)
                    && game_ended(
                    pre.clients@,
                    pre.owner,
                    post.state,
                    post.clients@,
                    post.owner,
                    info,
                    r->Ok_0.deep_view(),
                )
        }
    }

    /// After a game of Anagrams' time: the caller waits for the length of a
    /// game and then calls this.
    pub fn anagrams_timer(&mut self) -> (r: Result<Vec<Effect>, GameError>)
        requires
            old(self).wf(),
        ensures
            final(self).wf(),
            Self::anagrams_end_step(*old(self), *final(self), r),
    {
        match &self.state {
            State::Anagrams(game) => {
                let info = PostGameInfo::Anagrams(anagrams::get_post_game_info(game));
                let effects = end_game(&mut self.state, &mut self.clients, &mut self.owner, info);
                proof {
                    crate::clients::lemma_kept(old(self).clients@);
                    assert(anagrams::describes(info->Anagrams_0, old(self).state->Anagrams_0));
                }
                Ok(effects)
            },
            _ => Err(GameError::InvalidState { state: "anagrams" }),
        }
    }
}

/// Two errors are the same: the same kind, and the same room or state named.
pub open spec fn same_error(a: GameError, b: GameError) -> bool {
    match (a, b) {
        (GameError::RoomNotFound { room: x }, GameError::RoomNotFound { room: y }) => x@ == y@,
        (GameError::InvalidState { state: x }, GameError::InvalidState { state: y }) => x@ == y@,
        (GameError::RateLimited, GameError::RateLimited) => true,
        (GameError::Room(x), GameError::Room(y)) => x == y,
        (GameError::WordBomb(x), GameError::WordBomb(y)) => x == y,
        (GameError::Anagrams(x), GameError::Anagrams(y)) => x == y,
        _ => false,
    }
}

} // verus!
