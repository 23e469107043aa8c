//! The lobby of a room: who is ready, the countdown to the game, and how a
//! game starts and ends.

use vstd::prelude::*;
use crate::anagrams;
use crate::anagrams::Anagrams;
use crate::clients::{
    any_connected, broadcast, find_client, has_client, ids_distinct, kept, lemma_has_client,
    lemma_kept, lemma_slot_of, pick_free, sent, slot_of, sockets, Client,
};
use crate::error::GameError;
use crate::global::GlobalData;
use crate::messages::{
    copy_ids, followed_by, nothing, only, CountdownState, Effect, EffectView, Games,
    PostGameInfo, RoomSettings, RoomStateInfo, RoomStateInfoView, ServerMessage,
    ServerMessageView, Task, TaskView,
};
use crate::outside::{fresh_id, random_between, shuffle};
use crate::room::{Room, State};
use crate::word_bomb;
use crate::word_bomb::{
    alive, fresh_players, is_fresh, lemma_alive_count_bounds, Timer, WordBomb, WordBombSettings,
    TIMER_HIGH, TIMER_LOW,
};

verus! {

/// Seconds that a countdown starts with.
pub const COUNTDOWN: u8 = 10;

/// How many players have to be ready for a game.
pub const MIN_READY: usize = 2;

/// The countdown to the start of a game.
#[derive(Clone, Copy, Debug, PartialEq, Eq, Structural)]
pub struct Countdown {
    /// Seconds left.
    pub time_left: u8,
    /// Handle of the task that ticks.
    pub timer_handle: u64,
}

#[derive(Clone, Debug, PartialEq)]
pub struct Lobby {
    /// The players that are ready, each once, in the order they got ready.
    pub ready: Vec<u128>,
    pub countdown: Option<Countdown>,
}

/// The countdown after a check, `count` players being ready: one starts
/// once enough players are ready and none runs, and a running one stops once
/// they no longer are.
pub open spec fn next_countdown(count: nat, countdown: Option<Countdown>, task: u64) -> Option<
    Countdown,
> {
    if countdown is Some && count < MIN_READY {
        None
    } else if countdown is None && count >= MIN_READY {
        Some(Countdown { time_left: COUNTDOWN, timer_handle: task })
    } else {
        countdown
    }
}

/// What the clients are told of the countdown after a check.
pub open spec fn countdown_change(count: nat, countdown: Option<Countdown>) -> Option<
    CountdownState,
> {
    if countdown is Some && count < MIN_READY {
        Some(CountdownState::Stopped)
    } else if countdown is None && count >= MIN_READY {
        Some(CountdownState::InProgress { time_left: COUNTDOWN })
    } else {
        None
    }
}

/// The task that a check starts or cancels.
pub open spec fn countdown_effects(
    count: nat,
    countdown: Option<Countdown>,
    room: Seq<char>,
    task: u64,
) -> Seq<EffectView> {
    if countdown is Some && count < MIN_READY {
        seq![EffectView::Abort { handle: countdown->0.timer_handle }]
    } else if countdown is None && count >= MIN_READY {
        seq![EffectView::Spawn { handle: task, task: TaskView::Countdown { room } }]
    } else {
        Seq::empty()
    }
}

/// What the countdown check does.
pub open spec fn countdown_updated(
    pre: Lobby,
    post: Lobby,
    room: Seq<char>,
    task: u64,
    update: Option<CountdownState>,
    effects: Seq<EffectView>,
) -> bool {
    &&& post.ready == pre.ready
    &&& post.countdown == next_countdown(pre.ready@.len(), pre.countdown, task)
    &&& update == countdown_change(pre.ready@.len(), pre.countdown)
    &&& effects == countdown_effects(pre.ready@.len(), pre.countdown, room, task)
}

/// A game of Word Bomb as it starts: the ready players are seated in some
/// order, each with two lives and nothing typed; the first has the turn; the
/// timer starts now and is between ten and thirty seconds long; the prompt
/// is one of the pool for the settings' threshold.
pub open spec fn fresh_word_bomb(
    game: WordBomb,
    ready: Seq<u128>,
    settings: WordBombSettings,
    global: &GlobalData,
    now: u64,
    task: u64,
) -> bool {
    &&& game.wf()
    &&& seats(game.players@).to_multiset() == ready.to_multiset()
    &&& forall|i: int|
        0 <= i < game.players@.len() ==> is_fresh(
            #[trigger] game.players@[i],
            game.players@[i].uuid,
        )
    &&& game.turn == game.players@[0].uuid
    &&& game.settings == settings
    &&& game.started_at == now
    &&& game.timer.start == now
    &&& game.timer.task == task
    &&& TIMER_LOW <= game.timer.length <= TIMER_HIGH
    &&& global.prompts.pool(settings.min_wpm).contains(game.prompt@)
    &&& game.prompt_uses == 0
    &&& game.missed_prompts@.len() == 0
}

/// A game of Anagrams as it starts: the ready players are its players, in
/// their order and without words; the word behind the anagram is a six-byte
/// word of the dictionary, and the anagram has its letters.
pub open spec fn fresh_anagrams(game: Anagrams, ready: Seq<u128>, global: &GlobalData, task: u64) -> bool {
    &&& game.wf()
    &&& game.timer == task
    &&& global.has_word(game.original@)
    &&& crate::text::byte_len(game.original@) == 6
    &&& game.anagram@.to_multiset() == game.original@.to_multiset()
    &&& game.players@.len() == ready.len()
    &&& forall|i: int|
        0 <= i < ready.len() ==> (#[trigger] game.players@[i]).uuid == ready[i]
            && game.players@[i].used_words@.len() == 0
}

/// The identities of the players, in seat order.
pub open spec fn seats(players: Seq<word_bomb::Player>) -> Seq<u128> {
    players.map_values(|p: word_bomb::Player| p.uuid)
}

/// The clients after each ready player was given a rejoin token:
/// `tokens[k]` goes to the player `ready[k]`.
pub open spec fn with_tokens(clients: Seq<Client>, ready: Seq<u128>, tokens: Seq<u128>) -> Seq<
    Client,
>
    decreases ready.len(),
{
    if ready.len() == 0 || tokens.len() != ready.len() {
        clients
    } else {
        let before = with_tokens(clients, ready.drop_last(), tokens.drop_last());
        let slot = slot_of(before, ready.last());
        if slot < before.len() {
            before.update(slot, Client { rejoin_token: Some(tokens.last()), ..before[slot] })
        } else {
            before
        }
    }
}

/// The messages that tell the connected clients, one by one, that the game
/// has started: each is told its own rejoin token.
pub open spec fn started_sends(clients: Seq<Client>, game: RoomStateInfoView) -> Seq<EffectView>
    decreases clients.len(),
{
    if clients.len() == 0 {
        Seq::empty()
    } else {
        let rest = started_sends(clients.drop_last(), game);
        let last = clients.last();
        if last.socket is Some {
            rest.push(
                EffectView::Send {
                    to: seq![last.socket->0],
                    message: ServerMessageView::GameStarted {
                        rejoin_token: last.rejoin_token,
                        game,
                    },
                },
            )
        } else {
            rest
        }
    }
}

/// A game as the clients are told of it when it starts.
pub open spec fn started_info(state: State) -> RoomStateInfoView {
    match state {
        State::Lobby(lobby) => RoomStateInfoView::Lobby {
            ready: lobby.ready@,
            starting_countdown: None,
        },
        State::WordBomb(game) => RoomStateInfoView::WordBomb {
            players: game.players.deep_view(),
            turn: game.turn,
            prompt: game.prompt@,
            used_letters: None,
        },
        State::Anagrams(game) => RoomStateInfoView::Anagrams {
            players: game.players.deep_view(),
            anagram: game.anagram@,
        },
    }
}

pub proof fn lemma_with_tokens(clients: Seq<Client>, ready: Seq<u128>, tokens: Seq<u128>)
    ensures
        with_tokens(clients, ready, tokens).len() == clients.len(),
        forall|i: int|
            0 <= i < clients.len() ==> (#[trigger] with_tokens(clients, ready, tokens)[i]).uuid
                == clients[i].uuid && with_tokens(clients, ready, tokens)[i].socket
                == clients[i].socket && with_tokens(clients, ready, tokens)[i].username
                == clients[i].username,
        forall|i: int|
            0 <= i < clients.len() ==> (#[trigger] with_tokens(
                clients,
                ready,
                tokens,
            )[i]).rejoin_token == clients[i].rejoin_token || exists|k: int|
                0 <= k < tokens.len() && with_tokens(clients, ready, tokens)[i].rejoin_token
                    == Some(#[trigger] tokens[k]) && ready[k] == clients[i].uuid,
        ids_distinct(clients) ==> ids_distinct(with_tokens(clients, ready, tokens)),
        forall|id: u128|
            slot_of(with_tokens(clients, ready, tokens), id) == slot_of(clients, id),
        sockets(with_tokens(clients, ready, tokens)) == sockets(clients),
    decreases ready.len(),
{
    let out = with_tokens(clients, ready, tokens);
    if ready.len() == 0 || tokens.len() != ready.len() {
    } else {
        let before = with_tokens(clients, ready.drop_last(), tokens.drop_last());
        lemma_with_tokens(clients, ready.drop_last(), tokens.drop_last());
        let slot = slot_of(before, ready.last());
        lemma_slot_of(before, ready.last());
        assert forall|i: int| 0 <= i < clients.len() implies (#[trigger] out[i]).rejoin_token
            == clients[i].rejoin_token || exists|k: int|
            0 <= k < tokens.len() && out[i].rejoin_token == Some(#[trigger] tokens[k]) && ready[k]
                == clients[i].uuid by {
            if slot < before.len() && i == slot {
                lemma_slot_of(before, ready.last());
                let k = tokens.len() - 1;
                assert(out[i].rejoin_token == Some(tokens[k]) && ready[k] == clients[i].uuid);
            } else if before[i].rejoin_token != clients[i].rejoin_token {
                let k = choose|k: int|
                    0 <= k < tokens.drop_last().len() && before[i].rejoin_token == Some(
                        #[trigger] tokens.drop_last()[k],
                    ) && ready.drop_last()[k] == clients[i].uuid;
                assert(out[i].rejoin_token == Some(tokens[k]) && ready[k] == clients[i].uuid);
            }
        }
        assert forall|id: u128| slot_of(out, id) == slot_of(clients, id) by {
            lemma_same_ids(before, out, id);
        }
        lemma_same_sockets(before, out, None);
    }
}

/// Clients with the same identities, one by one, are found at the same place.
pub proof fn lemma_same_ids(a: Seq<Client>, b: Seq<Client>, id: u128)
    requires
        a.len() == b.len(),
        forall|i: int| 0 <= i < a.len() ==> (#[trigger] a[i]).uuid == b[i].uuid,
    ensures
        slot_of(a, id) == slot_of(b, id),
    decreases a.len(),
{
    if a.len() > 0 {
        lemma_same_ids(a.drop_last(), b.drop_last(), id);
    }
}

/// Clients with the same identities and sockets, one by one, are sent the same.
pub proof fn lemma_same_sockets(a: Seq<Client>, b: Seq<Client>, skip: Option<u128>)
    requires
        a.len() == b.len(),
        forall|i: int|
            0 <= i < a.len() ==> (#[trigger] a[i]).uuid == b[i].uuid && a[i].socket == b[i].socket,
    ensures
        crate::clients::sockets_except(a, skip) == crate::clients::sockets_except(b, skip),
    decreases a.len(),
{
    if a.len() > 0 {
        lemma_same_sockets(a.drop_last(), b.drop_last(), skip);
    }
}

impl Lobby {
    /// A countdown runs only while enough players are ready.
    pub open spec fn settled(&self) -> bool {
        self.countdown is Some ==> self.ready@.len() >= MIN_READY
    }

    /// The ready players are listed once each, and a countdown has between
    /// one and ten seconds left.
    pub open spec fn sound(&self) -> bool {
        &&& self.ready@.no_duplicates()
        &&& self.countdown is Some ==> 1 <= self.countdown->0.time_left <= COUNTDOWN
    }

    /// The lobby's invariant.
    pub open spec fn wf(&self) -> bool {
        self.sound() && self.settled()
    }

    /// A lobby in which nobody is ready.
    pub fn new() -> (r: Lobby)
        ensures
            r.ready@.len() == 0,
            r.countdown is None,
            r.wf(),
    {
        Self { ready: Vec::new(), countdown: None }
    }

    /// Where the player stands among the ready players, if it is ready.
    pub fn find_ready(&self, uuid: u128) -> (r: Option<usize>)
        ensures
            match r {
                Some(k) => k < self.ready@.len() && self.ready@[k as int] == uuid,
                None => !self.ready@.contains(uuid),
            },
    {
        let mut k: usize = 0;
        while k < self.ready.len()
            invariant
                k <= self.ready@.len(),
                forall|j: int| 0 <= j < k ==> self.ready@[j] != uuid,
            decreases self.ready@.len() - k,
        {
            if self.ready[k] == uuid {
                return Some(k);
            }
            k += 1;
        }
        None
    }

    /// Starts a game of Word Bomb for the ready players: they are seated in a
    /// random order, the first has the turn, and the timer and the prompt
    /// are drawn. Comes with the task that waits for the first timeout.
    pub fn start_word_bomb(
        &self,
        room: &str,
        settings: WordBombSettings,
        global: &GlobalData,
        now: u64,
        task: u64,
    ) -> (r: (State, Effect))
        requires
            self.wf(),
            self.ready@.len() >= MIN_READY,
            global.prompts.usable(),
        ensures
            r.0 is WordBomb,
            fresh_word_bomb(r.0->WordBomb_0, self.ready@, settings, global, now, task),
            r.1.deep_view() == (EffectView::Spawn {
                handle: task,
                task: TaskView::WordBombTimer {
                    room: room@,
                    timer_len: r.0->WordBomb_0.timer.length,
                    prompt: r.0->WordBomb_0.prompt@,
                },
            }),
    {
        let timer_len = random_between(TIMER_LOW, TIMER_HIGH);
        let prompt = global.prompts.random_prompt(settings.min_wpm).to_owned();
        let mut order = copy_ids(&self.ready);
        shuffle(&mut order);
        let players = fresh_players(&order);
        proof {
            broadcast use vstd::seq_lib::group_to_multiset_ensures;

            assert(seats(players@) =~= order@);
            self.ready@.lemma_multiset_has_no_duplicates();
            order@.lemma_multiset_has_no_duplicates_conv();
            assert(order@.to_multiset().len() == self.ready@.to_multiset().len());
            assert(order@.len() >= 2);
            assert(word_bomb::ids_distinct(players@)) by {
                assert forall|i: int, j: int| 0 <= i < j < players@.len() implies (
                #[trigger] players@[i]).uuid != (#[trigger] players@[j]).uuid by {
                    assert(order@[i] != order@[j]);
                }
            }
            assert(alive(players@, 0) && alive(players@, 1));
            lemma_alive_count_bounds(players@);
            word_bomb::lemma_seat_of(players@, players@[0].uuid);
            assert forall|i: int| 0 <= i < players@.len() implies word_bomb::letters_ok(
                (#[trigger] players@[i]).used_letters@,
            ) by {
                assert(is_fresh(players@[i], order@[i]));
                let none = players@[i].used_letters@;
                assert(crate::text::is_lower_letter('a'));
                assert(!none.contains('a'));
            }
            assert(word_bomb::words_unique(players@)) by {
                assert forall|i: int, a: int, j: int, b: int|
                    0 <= i < players@.len() && 0 <= a < players@[i].used_words@.len() && 0 <= j
                        < players@.len() && 0 <= b < players@[j].used_words@.len() && (i != j || a
                        != b) implies (#[trigger] players@[i].used_words@[a]).1@ != (
                #[trigger] players@[j].used_words@[b]).1@ by {
                    assert(is_fresh(players@[i], order@[i]));
                }
            }
        }
        let effect = Effect::Spawn {
            handle: task,
            task: Task::WordBombTimer { room: room.to_owned(), timer_len, prompt: prompt.clone() },
        };
        let game = WordBomb {
            settings,
            started_at: now,
            timer: Timer { task, start: now, length: timer_len },
            prompt,
            prompt_uses: 0,
            missed_prompts: Vec::new(),
            turn: players[0].uuid,
            players,
        };
        (State::WordBomb(game), effect)
    }

    /// Starts a game of Anagrams for the ready players: a six-byte word is
    /// drawn and its letters are shuffled. Comes with the task that ends the
    /// game.
    pub fn start_anagrams(&self, room: &str, global: &GlobalData, task: u64) -> (r: (State, Effect))
        requires
            self.wf(),
            global.wf(),
            global.has_six_byte_word(),
        ensures
            r.0 is Anagrams,
            fresh_anagrams(r.0->Anagrams_0, self.ready@, global, task),
            r.1.deep_view() == (EffectView::Spawn {
                handle: task,
                task: TaskView::AnagramsTimer { room: room@ },
            }),
    {
        let (original, anagram) = global.random_anagram();
        let mut players: Vec<anagrams::Player> = Vec::new();
        let mut i: usize = 0;
        while i < self.ready.len()
            invariant
                i <= self.ready@.len(),
                players@.len() == i,
                forall|k: int|
                    0 <= k < i ==> (#[trigger] players@[k]).uuid == self.ready@[k]
                        && players@[k].used_words@.len() == 0,
            decreases self.ready@.len() - i,
        {
            players.push(anagrams::Player::new(self.ready[i]));
            i += 1;
        }
        let effect = Effect::Spawn {
            handle: task,
            task: Task::AnagramsTimer { room: room.to_owned() },
        };
        let game = Anagrams { timer: task, anagram, original: original.to_owned(), players };
        proof {
            assert forall|i: int, j: int| 0 <= i < j < game.players@.len() implies (
            #[trigger] game.players@[i]).uuid != (#[trigger] game.players@[j]).uuid by {
                assert(self.ready@[i] != self.ready@[j]);
            }
        }
        (State::Anagrams(game), effect)
    }
}

/// Starts the countdown where enough players are ready and none runs, and
/// stops it where one runs and they no longer are. `task` is the handle for
/// the tick task, should one be started.
pub fn check_for_countdown_update(lobby: &mut Lobby, room: &str, task: u64) -> (r: (
    Option<CountdownState>,
    Vec<Effect>,
))
    requires
        old(lobby).sound(),
    ensures
        countdown_updated(*old(lobby), *final(lobby), room@, task, r.0, r.1.deep_view()),
        final(lobby).wf(),
{
    let mut effects: Vec<Effect> = Vec::new();
    let update = match lobby.countdown {
        Some(countdown) => {
            if lobby.ready.len() < MIN_READY {
                effects.push(Effect::Abort { handle: countdown.timer_handle });
                lobby.countdown = None;
                Some(CountdownState::Stopped)
            } else {
                None
            }
        },
        None => {
            if lobby.ready.len() >= MIN_READY {
                lobby.countdown = Some(Countdown { time_left: COUNTDOWN, timer_handle: task });
                effects.push(
                    Effect::Spawn { handle: task, task: Task::Countdown { room: room.to_owned() } },
                );
                Some(CountdownState::InProgress { time_left: COUNTDOWN })
            } else {
                None
            }
        },
    };
    proof {
        let views = effects.deep_view();
        if views.len() == 1 {
            assert(views =~= seq![views[0]]);
            assert(views[0] == effects@[0].deep_view());
        } else {
            assert(views =~= Seq::<EffectView>::empty());
        }
    }
    (update, effects)
}

/// Keeps the owner where it is still a client of the room, and otherwise
/// makes a client drawn at random the owner and returns it.
pub fn check_for_new_room_owner(clients: &Vec<Client>, owner: &mut u128) -> (r: Option<u128>)
    requires
        clients@.len() > 0,
    ensures
        has_client(clients@, *old(owner)) ==> r is None && *final(owner) == *old(owner),
        !has_client(clients@, *old(owner)) ==> r == Some(*final(owner)),
        has_client(clients@, *final(owner)),
{
    match find_client(clients, *owner) {
        Some(_) => None,
        None => {
            let pick = random_between(0, (clients.len() - 1) as u64) as usize;
            *owner = clients[pick].uuid;
            proof {
                lemma_has_client(clients@, pick as int);
            }
            Some(*owner)
        },
    }
}

/// Gives each ready player the rejoin token of the same position.
pub fn assign_tokens(clients: &mut Vec<Client>, ready: &Vec<u128>, tokens: &Vec<u128>)
    requires
        tokens@.len() == ready@.len(),
    ensures
        final(clients)@ == with_tokens(old(clients)@, ready@, tokens@),
{
    let mut k: usize = 0;
    assert(ready@.subrange(0, 0) =~= Seq::<u128>::empty());
    while k < ready.len()
        invariant
            k <= ready@.len(),
            tokens@.len() == ready@.len(),
            clients@ == with_tokens(
                old(clients)@,
                ready@.subrange(0, k as int),
                tokens@.subrange(0, k as int),
            ),
        decreases ready@.len() - k,
    {
        assert(ready@.subrange(0, k + 1).drop_last() =~= ready@.subrange(0, k as int));
        assert(tokens@.subrange(0, k + 1).drop_last() =~= tokens@.subrange(0, k as int));
        let ghost before = clients@;
        match find_client(clients, ready[k]) {
            Some(slot) => {
                clients[slot].rejoin_token = Some(tokens[k]);
                assert(clients@ =~= before.update(
                    slot as int,
                    Client { rejoin_token: Some(tokens@[k as int]), ..before[slot as int] },
                ));
            },
            None => {},
        }
        k += 1;
    }
    assert(ready@.subrange(0, k as int) =~= ready@);
    assert(tokens@.subrange(0, k as int) =~= tokens@);
}

/// As many tokens as asked for, all different: each is drawn at random, and
/// where the draw gives a token once more, the first free one after it is
/// taken in its place.
pub(crate) fn draw_tokens(count: usize) -> (r: Vec<u128>)
    ensures
        r@.len() == count,
        r@.no_duplicates(),
{
    let mut out: Vec<u128> = Vec::new();
    while out.len() < count
        invariant
            out@.len() <= count,
            out@.no_duplicates(),
        decreases count - out@.len(),
    {
        let token = pick_free(&out, fresh_id());
        let ghost before = out@;
        out.push(token);
        assert forall|i: int, j: int|
            0 <= i < out@.len() && 0 <= j < out@.len() && i != j implies out@[i] != out@[j] by {
            if i < before.len() && j < before.len() {
                assert(before[i] != before[j]);
            } else if i < before.len() {
                assert(before[i] == out@[i]);
            } else {
                assert(before[j] == out@[j]);
            }
        }
    }
    out
}

/// Tokens that differ from each other, given to the ready players of a room
/// in which nobody holds one, leave no two clients with the same token.
pub proof fn lemma_distinct_tokens(clients: Seq<Client>, ready: Seq<u128>, tokens: Seq<u128>)
    requires
        ids_distinct(clients),
        forall|i: int| 0 <= i < clients.len() ==> (#[trigger] clients[i]).rejoin_token is None,
        tokens.no_duplicates(),
        tokens.len() == ready.len(),
    ensures
        crate::clients::tokens_unique(with_tokens(clients, ready, tokens)),
{
    let after = with_tokens(clients, ready, tokens);
    lemma_with_tokens(clients, ready, tokens);
    assert forall|i: int, j: int|
        0 <= i < j < after.len() && (#[trigger] after[i]).rejoin_token is Some implies after[i].rejoin_token
        != (#[trigger] after[j]).rejoin_token by {
        if after[i].rejoin_token == after[j].rejoin_token {
            let k = choose|k: int|
                0 <= k < tokens.len() && after[i].rejoin_token == Some(#[trigger] tokens[k])
                    && ready[k] == clients[i].uuid;
            let l = choose|l: int|
                0 <= l < tokens.len() && after[j].rejoin_token == Some(#[trigger] tokens[l])
                    && ready[l] == clients[j].uuid;
            assert(tokens[k] == tokens[l]);
            assert(clients[i].uuid != clients[j].uuid);
        }
    }
}

/// The game as the clients are told of it when it starts.
pub(crate) fn game_started_info(state: &State) -> (r: RoomStateInfo)
    ensures
        r.deep_view() == started_info(*state),
{
    match state {
        State::Lobby(lobby) => RoomStateInfo::Lobby {
            ready: copy_ids(&lobby.ready),
            starting_countdown: None,
        },
        State::WordBomb(game) => RoomStateInfo::WordBomb {
            turn: game.turn,
            players: word_bomb::copy_players(&game.players),
            prompt: game.prompt.clone(),
            used_letters: None,
        },
        State::Anagrams(game) => RoomStateInfo::Anagrams {
            players: anagrams::copy_players(&game.players),
            anagram: game.anagram.clone(),
        },
    }
}

/// Tells every connected client that the game has started, each with its
/// own rejoin token.
pub(crate) fn send_game_started(clients: &Vec<Client>, game: &RoomStateInfo, effects: &mut Vec<Effect>)
    ensures
        final(effects).deep_view() == old(effects).deep_view() + started_sends(
            clients@,
            game.deep_view(),
        ),
{
    let ghost before = effects.deep_view();
    let mut i: usize = 0;
    assert(clients@.subrange(0, 0) =~= Seq::<Client>::empty());
    assert(effects.deep_view() =~= before + Seq::<EffectView>::empty());
    while i < clients.len()
        invariant
            i <= clients@.len(),
            effects.deep_view() == before + started_sends(
                clients@.subrange(0, i as int),
                game.deep_view(),
            ),
        decreases clients@.len() - i,
    {
        assert(clients@.subrange(0, i + 1).drop_last() =~= clients@.subrange(0, i as int));
        match clients[i].socket {
            Some(socket) => {
                let mut to: Vec<u128> = Vec::new();
                to.push(socket);
                assert(to@ =~= seq![socket]);
                let ghost sofar = effects.deep_view();
                let effect = Effect::Send {
                    to,
                    message: ServerMessage::GameStarted {
                        rejoin_token: clients[i].rejoin_token,
                        game: game.duplicate(),
                    },
                };
                effects.push(effect);
                assert(effects.deep_view() =~= sofar.push(effect.deep_view()));
                assert(effects.deep_view() =~= before + started_sends(
                    clients@.subrange(0, i + 1),
                    game.deep_view(),
                ));
            },
            None => {},
        }
        i += 1;
    }
    assert(clients@.subrange(0, i as int) =~= clients@);
}

/// What the start of a game does. The ready players get rejoin tokens; the
/// state becomes the game that the settings name, with the ready players as
/// its players; the game's first task is started, and every connected
/// client is told of the game and of its own token.
pub open spec fn game_started(
    pre_state: State,
    pre_clients: Seq<Client>,
    post_state: State,
    post_clients: Seq<Client>,
    settings: RoomSettings,
    room: Seq<char>,
    global: &GlobalData,
    now: u64,
    task: u64,
    effects: Seq<EffectView>,
) -> bool {
    let ready = pre_state->Lobby_0.ready@;
    &&& exists|tokens: Seq<u128>|
        tokens.len() == ready.len() && tokens.no_duplicates() && post_clients
            == #[trigger] with_tokens(pre_clients, ready, tokens)
    &&& post_state.wf()
    &&& post_state.pending() == Some(task)
    &&& match settings.game {
        Games::WordBomb => post_state is WordBomb && fresh_word_bomb(
            post_state->WordBomb_0,
            ready,
            settings.word_bomb,
            global,
            now,
            task,
        ) && effects == seq![
            EffectView::Spawn {
                handle: task,
                task: TaskView::WordBombTimer {
                    room,
                    timer_len: post_state->WordBomb_0.timer.length,
                    prompt: post_state->WordBomb_0.prompt@,
                },
            },
        ] + started_sends(post_clients, started_info(post_state)),
        Games::Anagrams => post_state is Anagrams && fresh_anagrams(
            post_state->Anagrams_0,
            ready,
            global,
            task,
        ) && effects == seq![
            EffectView::Spawn { handle: task, task: TaskView::AnagramsTimer { room } },
        ] + started_sends(post_clients, started_info(post_state)),
    }
}

/// Starts the game that the settings name; fails outside the lobby.
pub fn start_game(
    state: &mut State,
    clients: &mut Vec<Client>,
    settings: &RoomSettings,
    room: &str,
    global: &GlobalData,
    now: u64,
    task: u64,
) -> (r: Result<Vec<Effect>, GameError>)
    requires
        old(state).wf(),
        *old(state) is Lobby ==> (*old(state))->Lobby_0.ready@.len() >= MIN_READY,
        global.playable(),
    ensures
        !(*old(state) is Lobby) ==> (r matches Err(GameError::InvalidState { state: name })
            && name@ == "lobby"@) && *final(state) == *old(state) && *final(clients) == *old(
            clients,
        ),
        *old(state) is Lobby ==> r is Ok && game_started(
            *old(state),
            old(clients)@,
            *final(state),
            final(clients)@,
            *settings,
            room@,
            global,
            now,
            task,
            r->Ok_0.deep_view(),
        ),
{
    let (next, spawn) = match state {
        State::Lobby(lobby) => {
            let tokens = draw_tokens(lobby.ready.len());
            assign_tokens(clients, &lobby.ready, &tokens);
            match settings.game {
                Games::WordBomb => lobby.start_word_bomb(
                    room,
                    settings.word_bomb,
                    global,
                    now,
                    task,
                ),
                Games::Anagrams => lobby.start_anagrams(room, global, task),
            }
        },
        _ => {
            return Err(GameError::InvalidState { state: "lobby" });
        },
    };
    *state = next;
    let info = game_started_info(state);
    let mut effects: Vec<Effect> = Vec::new();
    effects.push(spawn);
    assert(effects.deep_view() =~= seq![spawn.deep_view()]);
    send_game_started(clients, &info, &mut effects);
    Ok(effects)
}

/// What the end of a game does. The clients that are not connected leave,
/// and the others lose their rejoin tokens; the owner stays if it is still
/// there, and otherwise one of the clients becomes the owner; everybody is
/// told the result; the room is back in an empty lobby.
pub open spec fn game_ended(
    pre_clients: Seq<Client>,
    pre_owner: u128,
    post_state: State,
    post_clients: Seq<Client>,
    post_owner: u128,
    info: PostGameInfo,
    effects: Seq<EffectView>,
) -> bool {
    &&& post_clients == kept(pre_clients)
    &&& has_client(post_clients, post_owner)
    &&& has_client(post_clients, pre_owner) ==> post_owner == pre_owner
    &&& post_state is Lobby
    &&& post_state->Lobby_0.ready@.len() == 0
    &&& post_state->Lobby_0.countdown is None
    &&& effects == seq![
        EffectView::Send {
            to: sockets(post_clients),
            message: ServerMessageView::GameEnded {
                new_room_owner: if has_client(post_clients, pre_owner) {
                    None
                } else {
                    Some(post_owner)
                },
                info: info.deep_view(),
            },
        },
    ]
}

/// Ends the game with the given result.
pub fn end_game(state: &mut State, clients: &mut Vec<Client>, owner: &mut u128, info: PostGameInfo) -> (r:
    Vec<Effect>)
    requires
        any_connected(old(clients)@),
    ensures
        game_ended(
            old(clients)@,
            *old(owner),
            *final(state),
            final(clients)@,
            *final(owner),
            info,
            r.deep_view(),
        ),
{
    let mut staying: Vec<Client> = Vec::new();
    let mut i: usize = 0;
    assert(clients@.subrange(0, 0) =~= Seq::<Client>::empty());
    while i < clients.len()
        invariant
            i <= clients@.len(),
            *clients == *old(clients),
            staying@ == kept(clients@.subrange(0, i as int)),
        decreases clients@.len() - i,
    {
        assert(clients@.subrange(0, i + 1).drop_last() =~= clients@.subrange(0, i as int));
        if clients[i].socket.is_some() {
            staying.push(
                Client {
                    uuid: clients[i].uuid,
                    socket: clients[i].socket,
                    username: clients[i].username.clone(),
                    rejoin_token: None,
                },
            );
        }
        i += 1;
    }
    assert(clients@.subrange(0, i as int) =~= clients@);
    proof {
        lemma_kept(clients@);
        let c = choose|c: int| 0 <= c < clients@.len() && (#[trigger] clients@[c]).socket is Some;
        assert(has_client(staying@, clients@[c].uuid));
    }
    *clients = staying;
    let new_room_owner = check_for_new_room_owner(clients, owner);
    let effect = broadcast(clients, ServerMessage::GameEnded { new_room_owner, info });
    let mut effects: Vec<Effect> = Vec::new();
    effects.push(effect);
    assert(effects.deep_view() =~= seq![effect.deep_view()]);
    *state = State::default();
    effects
}

impl Room {
    /// What it does to the room that a player is ready. A player that is
    /// ready already changes nothing, nor does a sender that is no client of
    /// the room. Otherwise the player joins the ready players, which may
    /// start the countdown, and everybody is told who is ready.
    pub open spec fn readied(pre: Room, post: Room, uuid: u128, room: Seq<char>, task: u64, effects: Seq<
        EffectView,
    >) -> bool {
        let lobby = pre.state->Lobby_0;
        let after = post.state->Lobby_0;
        &&& post.owner == pre.owner
        &&& post.settings == pre.settings
        &&& post.clients == pre.clients
        &&& post.state is Lobby
        &&& if lobby.ready@.contains(uuid) || !has_client(pre.clients@, uuid) {
            post.state == pre.state && effects.len() == 0
        } else {
            &&& after.ready@ == lobby.ready@.push(uuid)
            &&& after.countdown == next_countdown(after.ready@.len(), lobby.countdown, task)
            &&& effects == countdown_effects(after.ready@.len(), lobby.countdown, room, task)
                + seq![
                EffectView::Send {
                    to: sockets(pre.clients@),
                    message: ServerMessageView::ReadyPlayers {
                        ready: after.ready@,
                        countdown_update: countdown_change(after.ready@.len(), lobby.countdown),
                    },
                },
            ]
        }
    }

    /// What a player's being ready does: outside the lobby it fails, and
    /// nothing changes.
    pub open spec fn ready_step(
        pre: Room,
        post: Room,
        uuid: u128,
        room: Seq<char>,
        task: u64,
        r: Result<Vec<Effect>, GameError>,
    ) -> bool {
        if pre.state is Lobby {
            r is Ok && Self::readied(pre, post, uuid, room, task, r->Ok_0.deep_view())
        } else {
            wrong_state(r, "lobby"@) && post == pre
        }
    }

    /// A player is ready. `task` is the handle for the countdown's task,
    /// should the countdown start.
    pub fn client_ready(&mut self, uuid: u128, room: &str, task: u64) -> (r: Result<
        Vec<Effect>,
        GameError,
    >)
        requires
            old(self).wf(),
        ensures
            final(self).wf(),
            Self::ready_step(*old(self), *final(self), uuid, room@, task, r),
    {
        match &mut self.state {
            State::Lobby(lobby) => {
                if lobby.find_ready(uuid).is_some() || find_client(&self.clients, uuid).is_none() {
                    return Ok(nothing());
                }
                let ghost before = lobby.ready@;
                lobby.ready.push(uuid);
                proof {
                    assert forall|i: int, j: int|
                        0 <= i < lobby.ready@.len() && 0 <= j < lobby.ready@.len() && i
                            != j implies lobby.ready@[i] != lobby.ready@[j] by {
                        if i < before.len() && j < before.len() {
                            assert(before[i] != before[j]);
                        }
                    }
                }
                let (update, timers) = check_for_countdown_update(lobby, room, task);
                let told = broadcast(
                    &self.clients,
                    ServerMessage::ReadyPlayers {
                        ready: copy_ids(&lobby.ready),
                        countdown_update: update,
                    },
                );
                Ok(followed_by(timers, only(told)))
            },
            _ => Err(GameError::InvalidState { state: "lobby" }),
        }
    }

    /// What it does to the room that a player is no longer ready. A player
    /// that was not ready changes nothing. Otherwise the player leaves the
    /// ready players, which may stop the countdown, and everybody is told
    /// who is ready.
    pub open spec fn unreadied(pre: Room, post: Room, uuid: u128, room: Seq<char>, task: u64, effects: Seq<
        EffectView,
    >) -> bool {
        let lobby = pre.state->Lobby_0;
        let after = post.state->Lobby_0;
        &&& post.owner == pre.owner
        &&& post.settings == pre.settings
        &&& post.clients == pre.clients
        &&& post.state is Lobby
        &&& if !lobby.ready@.contains(uuid) {
            post.state == pre.state && effects.len() == 0
        } else {
            &&& after.ready@ == lobby.ready@.remove_value(uuid)
            &&& after.countdown == next_countdown(after.ready@.len(), lobby.countdown, task)
            &&& effects == countdown_effects(after.ready@.len(), lobby.countdown, room, task)
                + seq![
                EffectView::Send {
                    to: sockets(pre.clients@),
                    message: ServerMessageView::ReadyPlayers {
                        ready: after.ready@,
                        countdown_update: countdown_change(after.ready@.len(), lobby.countdown),
                    },
                },
            ]
        }
    }

    /// What a player's being no longer ready does: outside the lobby it
    /// fails, and nothing changes.
    pub open spec fn unready_step(
        pre: Room,
        post: Room,
        uuid: u128,
        room: Seq<char>,
        task: u64,
        r: Result<Vec<Effect>, GameError>,
    ) -> bool {
        if pre.state is Lobby {
            r is Ok && Self::unreadied(pre, post, uuid, room, task, r->Ok_0.deep_view())
        } else {
            wrong_state(r, "lobby"@) && post == pre
        }
    }

    /// A player is no longer ready.
    pub fn client_unready(&mut self, uuid: u128, room: &str, task: u64) -> (r: Result<
        Vec<Effect>,
        GameError,
    >)
        requires
            old(self).wf(),
        ensures
            final(self).wf(),
            Self::unready_step(*old(self), *final(self), uuid, room@, task, r),
    {
        match &mut self.state {
            State::Lobby(lobby) => {
                let k = match lobby.find_ready(uuid) {
                    Some(k) => k,
                    None => {
                        return Ok(nothing());
                    },
                };
                let ghost before = lobby.ready@;
                lobby.ready.remove(k);
                proof {
                    before.index_of_first_ensures(uuid);
                    let first = before.index_of(uuid);
                    assert(first == k) by {
                        if first != k {
                            assert(before[first] == before[k as int]);
                        }
                    }
                    assert(lobby.ready@ =~= before.remove_value(uuid));
                    assert forall|i: int, j: int|
                        0 <= i < lobby.ready@.len() && 0 <= j < lobby.ready@.len() && i
                            != j implies lobby.ready@[i] != lobby.ready@[j] by {
                        let i0 = if i < k { i } else { i + 1 };
                        let j0 = if j < k { j } else { j + 1 };
                        assert(before[i0] != before[j0]);
                    }
                }
                let (update, timers) = check_for_countdown_update(lobby, room, task);
                let told = broadcast(
                    &self.clients,
                    ServerMessage::ReadyPlayers {
                        ready: copy_ids(&lobby.ready),
                        countdown_update: update,
                    },
                );
                Ok(followed_by(timers, only(told)))
            },
            _ => Err(GameError::InvalidState { state: "lobby" }),
        }
    }

    /// The owner may start the game at once while enough players are ready.
    pub open spec fn may_start(&self, uuid: u128) -> bool {
        self.state is Lobby && uuid == self.owner && self.state->Lobby_0.ready@.len() >= MIN_READY
    }

    /// How many tasks the state waits for: one or none.
    pub open spec fn waiting(&self) -> int {
        match self.state.pending() {
            Some(_) => 1,
            None => 0,
        }
    }

    /// What the owner's asking for an early start does. Outside the lobby it
    /// fails. Where the sender owns the room and enough players are ready, a
    /// running countdown is cancelled and the game starts; otherwise nothing
    /// changes.
    pub open spec fn start_early_step(
        pre: Room,
        post: Room,
        uuid: u128,
        room: Seq<char>,
        global: &GlobalData,
        now: u64,
        task: u64,
        r: Result<Vec<Effect>, GameError>,
    ) -> bool {
        if !(pre.state is Lobby) {
            wrong_state(r, "lobby"@) && post == pre
        } else if !pre.may_start(uuid) {
            r is Ok && r->Ok_0.deep_view().len() == 0 && post == pre
        } else {
            let effects = r->Ok_0.deep_view();
            &&& r is Ok
            &&& post.owner == pre.owner
            &&& post.settings == pre.settings
            &&& effects.len() >= pre.waiting()
            &&& effects.take(pre.waiting()) == match pre.state.pending() {
                Some(handle) => seq![EffectView::Abort { handle }],
                None => Seq::<EffectView>::empty(),
            }
            &&& game_started(
                pre.state,
                pre.clients@,
                post.state,
                post.clients@,
                pre.settings,
                room,
                global,
                now,
                task,
                effects.skip(pre.waiting()),
            )
        }
    }

    /// The owner asks for the game to start at once.
    pub fn client_start_early(
        &mut self,
        uuid: u128,
        room: &str,
        global: &GlobalData,
        now: u64,
        task: u64,
    ) -> (r: Result<Vec<Effect>, GameError>)
        requires
            old(self).wf(),
            global.playable(),
        ensures
            final(self).wf(),
            Self::start_early_step(*old(self), *final(self), uuid, room@, global, now, task, r),
    {
        let (enough, countdown) = match &self.state {
            State::Lobby(lobby) => (lobby.ready.len() >= MIN_READY, lobby.countdown),
            _ => {
                return Err(GameError::InvalidState { state: "lobby" });
            },
        };
        proof {
            lemma_no_tokens(self.clients@);
        }
        if uuid == self.owner && enough {
            let aborts = match countdown {
                Some(countdown) => only(Effect::Abort { handle: countdown.timer_handle }),
                None => nothing(),
            };
            let ghost first = aborts.deep_view();
            let started = match start_game(
                &mut self.state,
                &mut self.clients,
                &self.settings,
                room,
                global,
                now,
                task,
            ) {
                Ok(started) => started,
                Err(e) => {
                    return Err(e);
                },
            };
            let ghost second = started.deep_view();
            let effects = followed_by(aborts, started);
            proof {
                assert((first + second).take(first.len() as int) =~= first);
                assert((first + second).skip(first.len() as int) =~= second);
                lemma_started_wf(*old(self), *self);
            }
            Ok(effects)
        } else {
            Ok(nothing())
        }
    }

    /// What a tick of the countdown does, while it has more than a second
    /// left: it has a second less, and everybody is told.
    pub open spec fn ticked(pre: Room, post: Room, effects: Seq<EffectView>) -> bool {
        let countdown = pre.state->Lobby_0.countdown->0;
        let left = (countdown.time_left - 1) as u8;
        &&& post.owner == pre.owner
        &&& post.settings == pre.settings
        &&& post.clients == pre.clients
        &&& post.state is Lobby
        &&& post.state->Lobby_0.ready == pre.state->Lobby_0.ready
        &&& post.state->Lobby_0.countdown == Some(Countdown { time_left: left, ..countdown })
        &&& effects == seq![
            EffectView::Send {
                to: sockets(pre.clients@),
                message: ServerMessageView::StartingCountdown { time_left: left },
            },
        ]
    }

    /// What a tick of the countdown does. Outside the lobby it fails.
    /// Without a countdown nothing changes. With the last second gone the
    /// game starts.
    pub open spec fn tick_step(
        pre: Room,
        post: Room,
        room: Seq<char>,
        global: &GlobalData,
        now: u64,
        task: u64,
        r: Result<Vec<Effect>, GameError>,
    ) -> bool {
        if !(pre.state is Lobby) {
            wrong_state(r, "lobby"@) && post == pre
        } else if pre.state->Lobby_0.countdown is None {
            r is Ok && r->Ok_0.deep_view().len() == 0 && post == pre
        } else if pre.state->Lobby_0.countdown->0.time_left > 1 {
            r is Ok && Self::ticked(pre, post, r->Ok_0.deep_view())
        } else {
            &&& r is Ok
            &&& post.owner == pre.owner
            &&& post.settings == pre.settings
            &&& game_started(
                pre.state,
                pre.clients@,
                post.state,
                post.clients@,
                pre.settings,
                room,
                global,
                now,
                task,
                r->Ok_0.deep_view(),
            )
        }
    }

    /// One tick of the countdown: the caller waits a second, calls this, and
    /// does so up to ten times unless the call fails.
    pub fn start_when_ready(&mut self, room: &str, global: &GlobalData, now: u64, task: u64) -> (r:
        Result<Vec<Effect>, GameError>)
        requires
            old(self).wf(),
            global.playable(),
        ensures
            final(self).wf(),
            Self::tick_step(*old(self), *final(self), room@, global, now, task, r),
    {
        let left = match &mut self.state {
            State::Lobby(lobby) => {
                match lobby.countdown {
                    Some(countdown) => {
                        let left: u8 = countdown.time_left - 1;
                        if left > 0 {
                            lobby.countdown = Some(
                                Countdown { time_left: left, timer_handle: countdown.timer_handle },
                            );
                        }
                        left
                    },
                    None => {
                        return Ok(nothing());
                    },
                }
            },
            _ => {
                return Err(GameError::InvalidState { state: "lobby" });
            },
        };
        if left == 0 {
            proof {
                lemma_no_tokens(self.clients@);
            }
            let started = match start_game(
                &mut self.state,
                &mut self.clients,
                &self.settings,
                room,
                global,
                now,
                task,
            ) {
                Ok(started) => started,
                Err(e) => {
                    return Err(e);
                },
            };
            proof {
                lemma_started_wf(*old(self), *self);
            }
            Ok(started)
        } else {
            let told = broadcast(&self.clients, ServerMessage::StartingCountdown { time_left: left });
            Ok(only(told))
        }
    }

    /// What new settings do: from the owner, in the lobby, the room takes
    /// them, and everybody is told. From anybody else, or during a game,
    /// nothing changes.
    pub open spec fn settings_step(
        pre: Room,
        post: Room,
        uuid: u128,
        update: RoomSettings,
        effects: Seq<EffectView>,
    ) -> bool {
        &&& post.owner == pre.owner
        &&& post.clients == pre.clients
        &&& post.state == pre.state
        &&& if pre.state is Lobby && pre.owner == uuid {
            post.settings == update && effects == seq![
                EffectView::Send {
                    to: sockets(pre.clients@),
                    message: ServerMessageView::RoomSettings(update),
                },
            ]
        } else {
            post.settings == pre.settings && effects.len() == 0
        }
    }

    /// The sender changes the settings.
    pub fn client_room_settings(&mut self, uuid: u128, settings_update: RoomSettings) -> (r: Vec<
        Effect,
    >)
        requires
            old(self).wf(),
        ensures
            final(self).wf(),
            Self::settings_step(*old(self), *final(self), uuid, settings_update, r.deep_view()),
    {
        let in_lobby = match &self.state {
            State::Lobby(_) => true,
            _ => false,
        };
        if in_lobby && self.owner == uuid {
            self.settings = settings_update;
            only(broadcast(&self.clients, ServerMessage::RoomSettings(settings_update)))
        } else {
            nothing()
        }
    }
}

/// The result says that the room is not in the state of that name.
pub open spec fn wrong_state<T>(r: Result<T, GameError>, name: Seq<char>) -> bool {
    r matches Err(GameError::InvalidState { state }) && state@ == name
}

/// Clients without rejoin tokens hold no token twice.
pub proof fn lemma_no_tokens(clients: Seq<Client>)
    requires
        forall|i: int| 0 <= i < clients.len() ==> (#[trigger] clients[i]).rejoin_token is None,
    ensures
        crate::clients::tokens_unique(clients),
{
}

/// A room in which a game has just started is a sound room.
pub proof fn lemma_started_wf(pre: Room, post: Room)
    requires
        pre.wf(),
        pre.state is Lobby,
        pre.state->Lobby_0.ready@.len() >= MIN_READY,
        post.owner == pre.owner,
        post.state.wf(),
        !(post.state is Lobby),
        exists|tokens: Seq<u128>|
            tokens.len() == pre.state->Lobby_0.ready@.len() && tokens.no_duplicates()
                && post.clients@ == #[trigger] with_tokens(
                pre.clients@,
                pre.state->Lobby_0.ready@,
                tokens,
            ),
    ensures
        post.wf(),
{
    let tokens = choose|tokens: Seq<u128>|
        tokens.len() == pre.state->Lobby_0.ready@.len() && tokens.no_duplicates()
            && post.clients@ == #[trigger] with_tokens(
            pre.clients@,
            pre.state->Lobby_0.ready@,
            tokens,
        );
    lemma_with_tokens(pre.clients@, pre.state->Lobby_0.ready@, tokens);
    lemma_distinct_tokens(pre.clients@, pre.state->Lobby_0.ready@, tokens);
    assert(has_client(pre.clients@, pre.state->Lobby_0.ready@[0]));
    lemma_slot_of(pre.clients@, pre.state->Lobby_0.ready@[0]);
    let c = choose|c: int| 0 <= c < pre.clients@.len() && (#[trigger] pre.clients@[c]).socket is Some;
    assert(post.clients@[c].socket is Some);
}

} // verus!
