//! What holds of every state that the engine can reach, and of some
//! sequences of steps.

use vstd::prelude::*;
use crate::anagrams::{scoring_word, Anagrams, MIN_GUESS};
use crate::clients::{
    any_connected, has_client, ids_distinct, kept, lemma_kept, lemma_slot_of, slot_of,
    tokens_unique, Client,
};
use crate::error::GameError;
use crate::lobby::{lemma_distinct_tokens, with_tokens, Lobby, MIN_READY};
use crate::messages::{Effect, EffectView, RoomSettings, ServerMessageView};
use crate::room::{Params, Room};
use crate::state::AppState;
use crate::text::{byte_len, is_lower_letter};
use crate::word_bomb::{
    alive, covers, lemma_add_letters, lemma_seat_of, seat_of, WordBomb, MIN_TIMER,
};

verus! {

/// In a game of Word Bomb the turn is always that of a player, and of one
/// with lives left.
pub proof fn law_turn_is_alive(game: WordBomb)
    requires
        game.wf(),
    ensures
        exists|i: int|
            0 <= i < game.players@.len() && (#[trigger] game.players@[i]).uuid == game.turn
                && game.players@[i].lives > 0,
{
    lemma_seat_of(game.players@, game.turn);
    let seat = seat_of(game.players@, game.turn);
    assert(alive(game.players@, seat));
    assert(game.players@[seat].uuid == game.turn);
}

/// A player's letters are lowercase letters and never earn an extra life as
/// they stand: when a valid guess completes them, the player gets exactly
/// one life and the letters are cleared; otherwise the letters of the guess
/// are added, and the lives stay.
pub proof fn law_letters_and_lives(
    pre: WordBomb,
    post: WordBomb,
    guess: Seq<char>,
    now: u64,
    extra_life: bool,
)
    requires
        pre.wf(),
        WordBomb::recorded(pre, post, guess, now, extra_life),
    ensures
        extra_life ==> post.players@[pre.turn_seat()].used_letters@.len() == 0
            && post.players@[pre.turn_seat()].lives == pre.players@[pre.turn_seat()].lives + 1,
        !extra_life ==> post.players@[pre.turn_seat()].lives
            == pre.players@[pre.turn_seat()].lives,
        !covers(post.players@[pre.turn_seat()].used_letters@),
        forall|k: int|
            0 <= k < post.players@[pre.turn_seat()].used_letters@.len() ==> is_lower_letter(
                #[trigger] post.players@[pre.turn_seat()].used_letters@[k],
            ),
        forall|c: char|
            !extra_life ==> (post.players@[pre.turn_seat()].used_letters@.contains(c)
                <==> pre.players@[pre.turn_seat()].used_letters@.contains(c) || (is_lower_letter(c)
                && guess.contains(c))),
{
    let seat = pre.turn_seat();
    lemma_seat_of(pre.players@, pre.turn);
    let before = pre.players@[seat].used_letters@;
    lemma_add_letters(before, guess);
    let none = Seq::<char>::empty();
    assert(is_lower_letter('a') && !none.contains('a'));
}

/// In a game of Word Bomb no word is used twice, by one player or by two.
pub proof fn law_words_used_once(game: WordBomb, i: int, a: int, j: int, b: int)
    requires
        game.wf(),
        0 <= i < game.players@.len(),
        0 <= a < game.players@[i].used_words@.len(),
        0 <= j < game.players@.len(),
        0 <= b < game.players@[j].used_words@.len(),
        i != j || a != b,
    ensures
        game.players@[i].used_words@[a].1@ != game.players@[j].used_words@[b].1@,
{
}

/// After a valid guess the timer of Word Bomb is at least six seconds long,
/// however much time has passed.
pub proof fn law_timer_floor(pre: WordBomb, post: WordBomb, guess: Seq<char>, now: u64, extra_life: bool)
    requires
        WordBomb::recorded(pre, post, guess, now, extra_life),
    ensures
        post.timer.length >= MIN_TIMER,
{
}

/// In a game of Anagrams every word that scored is at least three bytes long
/// and made of the anagram's letters, each letter at most as often as the
/// anagram has it.
pub proof fn law_anagram_words(game: Anagrams, i: int, a: int, c: char)
    requires
        game.wf(),
        0 <= i < game.players@.len(),
        0 <= a < game.players@[i].used_words@.len(),
    ensures
        byte_len(game.players@[i].used_words@[a]@) >= MIN_GUESS,
        crate::text::count_of(game.players@[i].used_words@[a]@, c) <= crate::text::count_of(
            game.anagram@,
            c,
        ),
{
    assert(scoring_word(game.players@[i].used_words@[a]@, game.anagram@));
}

/// A lobby in which fewer than two players are ready has no countdown.
pub proof fn law_no_countdown_without_players(lobby: Lobby)
    requires
        lobby.wf(),
        lobby.ready@.len() < MIN_READY,
    ensures
        lobby.countdown is None,
{
}

/// In a room no two clients hold the same rejoin token.
pub proof fn law_token_has_one_holder(room: Room, i: int, j: int)
    requires
        room.wf(),
        0 <= i < room.clients@.len(),
        0 <= j < room.clients@.len(),
        i != j,
        room.clients@[i].rejoin_token is Some,
    ensures
        room.clients@[i].rejoin_token != room.clients@[j].rejoin_token,
{
    if j < i {
        if room.clients@[j].rejoin_token is Some {
            assert(room.clients@[j].rejoin_token != room.clients@[i].rejoin_token);
        }
    }
}

/// Rejoin tokens that differ from each other, given to the ready players of a
/// lobby, leave no two clients with the same token. The tokens that a game
/// starts with do differ: see `game_started`.
pub proof fn law_tokens_unique(clients: Seq<Client>, ready: Seq<u128>, tokens: Seq<u128>)
    requires
        ids_distinct(clients),
        forall|i: int| 0 <= i < clients.len() ==> (#[trigger] clients[i]).rejoin_token is None,
        tokens.no_duplicates(),
        tokens.len() == ready.len(),
    ensures
        tokens_unique(with_tokens(clients, ready, tokens)),
{
    lemma_distinct_tokens(clients, ready, tokens);
}

/// When a game has ended no client holds a rejoin token, and every client
/// that is left is connected.
pub proof fn law_no_tokens_after_a_game(clients: Seq<Client>, i: int)
    requires
        0 <= i < kept(clients).len(),
    ensures
        kept(clients)[i].rejoin_token is None,
        kept(clients)[i].socket is Some,
        tokens_unique(kept(clients)),
{
    lemma_kept(clients);
}

/// A room that has clients has its owner among them.
pub proof fn law_owner_is_client(room: Room)
    requires
        room.wf(),
        room.clients@.len() > 0,
    ensures
        exists|i: int|
            0 <= i < room.clients@.len() && (#[trigger] room.clients@[i]).uuid == room.owner,
{
    lemma_slot_of(room.clients@, room.owner);
    let slot = slot_of(room.clients@, room.owner);
    assert(room.clients@[slot].uuid == room.owner);
}

/// When the last connected client of a room disconnects, the room is off the
/// table afterwards, and the task that its state was waiting for has been
/// cancelled.
pub proof fn law_last_one_closes_the_room(
    pre: AppState,
    post: AppState,
    uuid: u128,
    name: Seq<char>,
    socket_id: u128,
    r: Result<Vec<Effect>, GameError>,
)
    requires
        pre.has_room(name),
        AppState::left(pre, post, uuid, name, socket_id, r),
        has_client(pre.entries()[name].clients@, uuid),
        pre.entries()[name].clients@[slot_of(pre.entries()[name].clients@, uuid)].socket == Some(
            socket_id,
        ),
        forall|i: int|
            0 <= i < pre.entries()[name].clients@.len() && i != slot_of(
                pre.entries()[name].clients@,
                uuid,
            ) ==> (#[trigger] pre.entries()[name].clients@[i]).socket is None,
    ensures
        !post.has_room(name),
        r is Ok,
        r->Ok_0.deep_view() == match pre.entries()[name].state.pending() {
            Some(handle) => seq![EffectView::Abort { handle }],
            None => Seq::<EffectView>::empty(),
        },
{
    let room = pre.entries()[name];
    let slot = slot_of(room.clients@, uuid);
    lemma_slot_of(room.clients@, uuid);
    let retained = room.clients@.update(slot, Client { socket: None, ..room.clients@[slot] });
    assert(!any_connected(retained)) by {
        if any_connected(retained) {
            let i = choose|i: int| 0 <= i < retained.len() && (#[trigger] retained[i]).socket is Some;
            assert(room.clients@[i].socket is None);
        }
    }
}

/// A player that gets ready in a lobby where nobody is, and then is ready no
/// more, leaves the lobby as it was: nobody is ready, and there is no
/// countdown.
pub proof fn law_ready_unready(
    first: Room,
    second: Room,
    third: Room,
    uuid: u128,
    room: Seq<char>,
    task: u64,
    later: u64,
    told: Seq<EffectView>,
    told_later: Seq<EffectView>,
)
    requires
        first.state is Lobby,
        first.state->Lobby_0.ready@.len() == 0,
        first.state->Lobby_0.countdown is None,
        Room::readied(first, second, uuid, room, task, told),
        Room::unreadied(second, third, uuid, room, later, told_later),
    ensures
        third.state is Lobby,
        third.state->Lobby_0.ready@ == first.state->Lobby_0.ready@,
        third.state->Lobby_0.countdown is None,
        third.owner == first.owner,
        third.settings == first.settings,
        third.clients == first.clients,
{
    let none = first.state->Lobby_0.ready@;
    let one = second.state->Lobby_0.ready@;
    if has_client(first.clients@, uuid) {
        assert(!none.contains(uuid));
        assert(one == none.push(uuid));
        assert(one[0] == uuid);
        assert(one.contains(uuid));
        one.index_of_first_ensures(uuid);
        assert(one.remove_value(uuid) =~= none);
    } else {
        assert(!none.contains(uuid));
    }
}

/// Settings that the owner sets in the lobby are the settings that a client
/// is told when it joins next.
pub proof fn law_settings_are_told(
    first: Room,
    second: Room,
    third: Room,
    owner: u128,
    update: RoomSettings,
    told: Seq<EffectView>,
    params: Params,
    socket: u128,
    fresh: u128,
    uuid: u128,
    effects: Seq<EffectView>,
)
    requires
        first.state is Lobby,
        first.owner == owner,
        Room::settings_step(first, second, owner, update, told),
        Room::joined(second, third, params, socket, fresh, uuid, effects),
    ensures
        third.settings == update,
        effects.len() > 0,
        effects.last() == (EffectView::Send {
            to: seq![socket],
            message: ServerMessageView::Info { uuid, room: third.snapshot(uuid) },
        }),
        third.snapshot(uuid).settings == update,
{
}

} // verus!
