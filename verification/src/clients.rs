//! The clients of a room: who is there, who is connected, and who is sent
//! what.

use vstd::prelude::*;
use crate::messages::{ClientInfo, ClientInfoView, Effect, EffectView, ServerMessage};

verus! {

/// A member of a room. The messages for it go to its socket; a client
/// without a socket is kept for a later reconnect and is sent nothing.
#[derive(Clone, Debug, PartialEq)]
pub struct Client {
    pub uuid: u128,
    pub socket: Option<u128>,
    pub username: String,
    pub rejoin_token: Option<u128>,
}

/// Position of the first item that `pred` holds of, or the number of items.
pub open spec fn first_where<T>(items: Seq<T>, pred: spec_fn(T) -> bool) -> int
    decreases items.len(),
{
    if items.len() == 0 {
        0
    } else if first_where(items.drop_last(), pred) < items.len() - 1 {
        first_where(items.drop_last(), pred)
    } else if pred(items.last()) {
        items.len() - 1
    } else {
        items.len() as int
    }
}

pub proof fn lemma_first_where<T>(items: Seq<T>, pred: spec_fn(T) -> bool)
    ensures
        0 <= first_where(items, pred) <= items.len(),
        first_where(items, pred) < items.len() ==> pred(items[first_where(items, pred)]),
        forall|i: int| 0 <= i < first_where(items, pred) ==> !pred(#[trigger] items[i]),
    decreases items.len(),
{
    if items.len() > 0 {
        lemma_first_where(items.drop_last(), pred);
        assert forall|i: int| 0 <= i < first_where(items, pred) implies !pred(
            #[trigger] items[i],
        ) by {
            if i < items.len() - 1 {
                assert(items.drop_last()[i] == items[i]);
            }
        }
    }
}

/// Position of the client with the given identity, or the number of clients.
pub open spec fn slot_of(clients: Seq<Client>, id: u128) -> int {
    first_where(clients, |c: Client| c.uuid == id)
}

/// The identity belongs to a client of the room.
pub open spec fn has_client(clients: Seq<Client>, id: u128) -> bool {
    slot_of(clients, id) < clients.len()
}

/// Position of the first client that holds the rejoin token, or the number
/// of clients.
pub open spec fn holder_of(clients: Seq<Client>, token: u128) -> int {
    first_where(clients, |c: Client| c.rejoin_token == Some(token))
}

/// No two clients have the same identity.
pub open spec fn ids_distinct(clients: Seq<Client>) -> bool {
    forall|i: int, j: int|
        0 <= i < j < clients.len() ==> (#[trigger] clients[i]).uuid != (#[trigger] clients[j]).uuid
}

/// No two clients hold the same rejoin token.
pub open spec fn tokens_unique(clients: Seq<Client>) -> bool {
    forall|i: int, j: int|
        0 <= i < j < clients.len() && (#[trigger] clients[i]).rejoin_token is Some ==> clients[i].rejoin_token
            != (#[trigger] clients[j]).rejoin_token
}

/// Some client has a socket.
pub open spec fn any_connected(clients: Seq<Client>) -> bool {
    exists|i: int| 0 <= i < clients.len() && (#[trigger] clients[i]).socket is Some
}

/// Every client has a socket.
pub open spec fn all_connected(clients: Seq<Client>) -> bool {
    forall|i: int| 0 <= i < clients.len() ==> (#[trigger] clients[i]).socket is Some
}

/// The sockets of the connected clients other than `skip`, in order.
pub open spec fn sockets_except(clients: Seq<Client>, skip: Option<u128>) -> Seq<u128>
    decreases clients.len(),
{
    if clients.len() == 0 {
        Seq::empty()
    } else {
        let rest = sockets_except(clients.drop_last(), skip);
        let last = clients.last();
        if last.socket is Some && skip != Some(last.uuid) {
            rest.push(last.socket->0)
        } else {
            rest
        }
    }
}

/// The sockets of all connected clients, in order.
pub open spec fn sockets(clients: Seq<Client>) -> Seq<u128> {
    sockets_except(clients, None)
}

/// The socket of the client with the given identity, if it is there and
/// connected.
pub open spec fn socket_of(clients: Seq<Client>, id: u128) -> Seq<u128> {
    if has_client(clients, id) && clients[slot_of(clients, id)].socket is Some {
        seq![clients[slot_of(clients, id)].socket->0]
    } else {
        Seq::empty()
    }
}

/// What a snapshot of the room says about its clients.
pub open spec fn infos(clients: Seq<Client>) -> Seq<ClientInfoView> {
    Seq::new(
        clients.len(),
        |i: int|
            ClientInfoView {
                uuid: clients[i].uuid,
                username: clients[i].username@,
                disconnected: clients[i].socket is None,
            },
    )
}

/// A client with the identity of position `i` is a client of the room.
pub proof fn lemma_has_client(clients: Seq<Client>, i: int)
    requires
        0 <= i < clients.len(),
    ensures
        has_client(clients, clients[i].uuid),
        slot_of(clients, clients[i].uuid) <= i,
        ids_distinct(clients) ==> slot_of(clients, clients[i].uuid) == i,
{
    let pred = |c: Client| c.uuid == clients[i].uuid;
    lemma_first_where(clients, pred);
    assert(pred(clients[i]));
}

/// What is known of the position of a client.
pub proof fn lemma_slot_of(clients: Seq<Client>, id: u128)
    ensures
        0 <= slot_of(clients, id) <= clients.len(),
        has_client(clients, id) ==> clients[slot_of(clients, id)].uuid == id,
        forall|i: int| 0 <= i < slot_of(clients, id) ==> (#[trigger] clients[i]).uuid != id,
{
    let pred = |c: Client| c.uuid == id;
    lemma_first_where(clients, pred);
    assert forall|i: int| 0 <= i < slot_of(clients, id) implies (#[trigger] clients[i]).uuid
        != id by {
        assert(!pred(clients[i]));
    }
}

/// The clients that stay when a game ends: the connected ones, without their
/// rejoin tokens.
pub open spec fn kept(clients: Seq<Client>) -> Seq<Client>
    decreases clients.len(),
{
    if clients.len() == 0 {
        Seq::empty()
    } else if clients.last().socket is Some {
        kept(clients.drop_last()).push(Client { rejoin_token: None, ..clients.last() })
    } else {
        kept(clients.drop_last())
    }
}

pub proof fn lemma_kept(clients: Seq<Client>)
    ensures
        kept(clients).len() <= clients.len(),
        forall|k: int|
            0 <= k < kept(clients).len() ==> (#[trigger] kept(clients)[k]).socket is Some && kept(
                clients,
            )[k].rejoin_token is None,
        forall|k: int|
            0 <= k < kept(clients).len() ==> exists|i: int|
                0 <= i < clients.len() && (#[trigger] clients[i]).uuid == (#[trigger] kept(
                    clients,
                )[k]).uuid,
        forall|i: int|
            0 <= i < clients.len() && (#[trigger] clients[i]).socket is Some ==> has_client(
                kept(clients),
                clients[i].uuid,
            ),
        ids_distinct(clients) ==> ids_distinct(kept(clients)),
        sockets(kept(clients)) == sockets(clients),
    decreases clients.len(),
{
    if clients.len() > 0 {
        let rest = clients.drop_last();
        let last = clients.last();
        lemma_kept(rest);
        let out = kept(clients);
        assert forall|k: int| 0 <= k < out.len() implies exists|i: int|
            0 <= i < clients.len() && (#[trigger] clients[i]).uuid == (#[trigger] out[k]).uuid by {
            if k < kept(rest).len() {
                let i = choose|i: int|
                    0 <= i < rest.len() && (#[trigger] rest[i]).uuid == kept(rest)[k].uuid;
                assert(clients[i].uuid == out[k].uuid);
            } else {
                assert(clients[clients.len() - 1].uuid == out[k].uuid);
            }
        }
        assert forall|i: int|
            0 <= i < clients.len() && (#[trigger] clients[i]).socket is Some implies has_client(
            out,
            clients[i].uuid,
        ) by {
            if i < rest.len() {
                assert(rest[i].socket is Some);
                assert(has_client(kept(rest), rest[i].uuid));
                let k = slot_of(kept(rest), rest[i].uuid);
                lemma_slot_of(kept(rest), rest[i].uuid);
                assert(out[k].uuid == clients[i].uuid);
                lemma_has_client(out, k);
            } else {
                lemma_has_client(out, out.len() - 1);
            }
        }
        if ids_distinct(clients) {
            assert(ids_distinct(rest)) by {
                assert forall|i: int, j: int| 0 <= i < j < rest.len() implies (
                #[trigger] rest[i]).uuid != (#[trigger] rest[j]).uuid by {
                    assert(clients[i].uuid != clients[j].uuid);
                }
            }
            assert forall|a: int, b: int| 0 <= a < b < out.len() implies (#[trigger] out[a]).uuid
                != (#[trigger] out[b]).uuid by {
                if b < kept(rest).len() {
                    assert(kept(rest)[a].uuid != kept(rest)[b].uuid);
                } else {
                    let i = choose|i: int|
                        0 <= i < rest.len() && (#[trigger] rest[i]).uuid == kept(rest)[a].uuid;
                    assert(clients[i].uuid != clients[clients.len() - 1].uuid);
                }
            }
        }
        if last.socket is Some {
            assert(out.drop_last() =~= kept(rest));
        }
    }
}

/// The value `steps` after `from`, going round from the greatest value to 0.
pub open spec fn stepped(from: u128, steps: int) -> u128 {
    if from + steps <= u128::MAX {
        (from + steps) as u128
    } else {
        (from + steps - 0x1_0000_0000_0000_0000_0000_0000_0000_0000) as u128
    }
}

/// Of more candidates than there are values taken, all of them different,
/// one is not taken.
pub proof fn lemma_one_is_free(taken: Seq<u128>, candidates: Seq<u128>)
    requires
        candidates.no_duplicates(),
        candidates.len() > taken.len(),
    ensures
        exists|j: int| 0 <= j < candidates.len() && !taken.contains(#[trigger] candidates[j]),
    decreases taken.len(),
{
    if taken.len() == 0 {
        assert(!taken.contains(candidates[0]));
    } else {
        let last = taken.last();
        let rest = taken.drop_last();
        let fewer = if candidates.contains(last) {
            candidates.remove(candidates.index_of(last))
        } else {
            candidates.drop_last()
        };
        assert(fewer.no_duplicates() && fewer.len() == candidates.len() - 1 && forall|j: int|
            0 <= j < fewer.len() ==> candidates.contains(#[trigger] fewer[j]) && fewer[j]
                != last) by {
            if candidates.contains(last) {
                let at = candidates.index_of(last);
                assert forall|j: int| 0 <= j < fewer.len() implies candidates.contains(
                    #[trigger] fewer[j],
                ) && fewer[j] != last by {
                    let j0 = if j < at { j } else { j + 1 };
                    assert(fewer[j] == candidates[j0]);
                }
                assert forall|i: int, j: int|
                    0 <= i < fewer.len() && 0 <= j < fewer.len() && i != j implies fewer[i]
                    != fewer[j] by {
                    let i0 = if i < at { i } else { i + 1 };
                    let j0 = if j < at { j } else { j + 1 };
                    assert(fewer[i] == candidates[i0] && fewer[j] == candidates[j0]);
                }
            } else {
                assert forall|j: int| 0 <= j < fewer.len() implies candidates.contains(
                    #[trigger] fewer[j],
                ) && fewer[j] != last by {
                    assert(fewer[j] == candidates[j]);
                }
            }
        }
        lemma_one_is_free(rest, fewer);
        let j = choose|j: int| 0 <= j < fewer.len() && !rest.contains(#[trigger] fewer[j]);
        let free = fewer[j];
        let k = choose|k: int| 0 <= k < candidates.len() && candidates[k] == free;
        assert(!taken.contains(candidates[k])) by {
            if taken.contains(free) {
                let at = choose|at: int| 0 <= at < taken.len() && taken[at] == free;
                if at < rest.len() {
                    assert(rest[at] == free);
                }
            }
        }
    }
}

/// Whether the value is among those taken.
fn is_taken(taken: &Vec<u128>, value: u128) -> (r: bool)
    ensures
        r == taken@.contains(value),
{
    let mut i: usize = 0;
    while i < taken.len()
        invariant
            i <= taken@.len(),
            forall|k: int| 0 <= k < i ==> taken@[k] != value,
        decreases taken@.len() - i,
    {
        if taken[i] == value {
            return true;
        }
        i += 1;
    }
    false
}

/// The first value that is not taken, looking at `drawn` first and then at
/// the values after it, one by one, from `steps` after it on.
pub open spec fn first_free(taken: Seq<u128>, drawn: u128, steps: int) -> u128
    decreases taken.len() - steps,
{
    if steps < 0 || steps >= taken.len() || !taken.contains(stepped(drawn, steps)) {
        stepped(drawn, steps)
    } else {
        first_free(taken, drawn, steps + 1)
    }
}

/// A value that is not taken yet: the one that was drawn, or, where that one
/// is taken, the first after it that is not.
pub fn pick_free(taken: &Vec<u128>, drawn: u128) -> (r: u128)
    ensures
        r == first_free(taken@, drawn, 0),
        !taken@.contains(r),
        !taken@.contains(drawn) ==> r == drawn,
{
    let mut candidate = drawn;
    let mut steps: usize = 0;
    loop
        invariant
            steps <= taken@.len(),
            candidate == stepped(drawn, steps as int),
            first_free(taken@, drawn, 0) == first_free(taken@, drawn, steps as int),
            forall|fewer: int|
                0 <= fewer < steps ==> taken@.contains(#[trigger] stepped(drawn, fewer)),
        decreases taken@.len() - steps,
    {
        if !is_taken(taken, candidate) {
            return candidate;
        }
        let count = taken.len();
        proof {
            if steps == count {
                let candidates = Seq::new((steps + 1) as nat, |j: int| stepped(drawn, j));
                assert(candidates.no_duplicates());
                lemma_one_is_free(taken@, candidates);
                let j = choose|j: int|
                    0 <= j < candidates.len() && !taken@.contains(#[trigger] candidates[j]);
                assert(taken@.contains(stepped(drawn, j)));
                assert(false);
            }
        }
        candidate = if candidate == u128::MAX {
            0
        } else {
            candidate + 1
        };
        steps += 1;
    }
}

/// The identities of the clients, in order.
pub open spec fn ids_of(clients: Seq<Client>) -> Seq<u128> {
    clients.map_values(|c: Client| c.uuid)
}

/// The identities of the clients, in order.
pub fn client_ids(clients: &Vec<Client>) -> (r: Vec<u128>)
    ensures
        r@ == ids_of(clients@),
{
    let mut out: Vec<u128> = Vec::new();
    let mut i: usize = 0;
    while i < clients.len()
        invariant
            i <= clients@.len(),
            out@.len() == i,
            forall|k: int| 0 <= k < i ==> out@[k] == clients@[k].uuid,
        decreases clients@.len() - i,
    {
        out.push(clients[i].uuid);
        i += 1;
    }
    assert(out@ =~= ids_of(clients@));
    out
}

/// The message goes to the sockets `to`.
pub open spec fn sent(effect: Effect, to: Seq<u128>, message: ServerMessage) -> bool {
    effect.deep_view() == (EffectView::Send { to, message: message.deep_view() })
}

/// Position of the client with the given identity.
pub fn find_client(clients: &Vec<Client>, id: u128) -> (r: Option<usize>)
    ensures
        match r {
            Some(i) => i == slot_of(clients@, id) && i < clients@.len() && clients@[i as int].uuid
                == id,
            None => !has_client(clients@, id),
        },
{
    let ghost pred = |c: Client| c.uuid == id;
    proof {
        lemma_first_where(clients@, pred);
    }
    let mut i: usize = 0;
    while i < clients.len()
        invariant
            i <= clients@.len(),
            pred == (|c: Client| c.uuid == id),
            i <= first_where(clients@, pred) <= clients@.len(),
            first_where(clients@, pred) < clients@.len() ==> pred(
                clients@[first_where(clients@, pred)],
            ),
            forall|k: int| 0 <= k < first_where(clients@, pred) ==> !pred(#[trigger] clients@[k]),
        decreases clients@.len() - i,
    {
        if clients[i].uuid == id {
            assert(pred(clients@[i as int]));
            return Some(i);
        }
        i += 1;
    }
    None
}

/// Position of the first client that holds the rejoin token.
pub fn find_holder(clients: &Vec<Client>, token: u128) -> (r: Option<usize>)
    ensures
        match r {
            Some(i) => i == holder_of(clients@, token) && i < clients@.len()
                && clients@[i as int].rejoin_token == Some(token),
            None => holder_of(clients@, token) == clients@.len(),
        },
{
    let ghost pred = |c: Client| c.rejoin_token == Some(token);
    proof {
        lemma_first_where(clients@, pred);
    }
    let mut i: usize = 0;
    while i < clients.len()
        invariant
            i <= clients@.len(),
            pred == (|c: Client| c.rejoin_token == Some(token)),
            i <= first_where(clients@, pred) <= clients@.len(),
            first_where(clients@, pred) < clients@.len() ==> pred(
                clients@[first_where(clients@, pred)],
            ),
            forall|k: int| 0 <= k < first_where(clients@, pred) ==> !pred(#[trigger] clients@[k]),
        decreases clients@.len() - i,
    {
        match clients[i].rejoin_token {
            Some(t) => {
                if t == token {
                    assert(pred(clients@[i as int]));
                    return Some(i);
                }
            },
            None => {},
        }
        i += 1;
    }
    None
}

/// The sockets of the connected clients other than `skip`.
pub fn connected(clients: &Vec<Client>, skip: Option<u128>) -> (r: Vec<u128>)
    ensures
        r@ == sockets_except(clients@, skip),
{
    let mut out: Vec<u128> = Vec::new();
    let mut i: usize = 0;
    assert(clients@.subrange(0, 0) =~= Seq::<Client>::empty());
    while i < clients.len()
        invariant
            i <= clients@.len(),
            out@ == sockets_except(clients@.subrange(0, i as int), skip),
        decreases clients@.len() - i,
    {
        assert(clients@.subrange(0, i + 1).drop_last() =~= clients@.subrange(0, i as int));
        let skipped = match skip {
            Some(id) => id == clients[i].uuid,
            None => false,
        };
        match clients[i].socket {
            Some(s) => {
                if !skipped {
                    out.push(s);
                }
            },
            None => {},
        }
        i += 1;
    }
    assert(clients@.subrange(0, i as int) =~= clients@);
    out
}

/// Whether some client has a socket.
pub fn some_connected(clients: &Vec<Client>) -> (r: bool)
    ensures
        r == any_connected(clients@),
{
    let mut i: usize = 0;
    while i < clients.len()
        invariant
            i <= clients@.len(),
            forall|k: int| 0 <= k < i ==> (#[trigger] clients@[k]).socket is None,
        decreases clients@.len() - i,
    {
        if clients[i].socket.is_some() {
            return true;
        }
        i += 1;
    }
    false
}

/// The message for every connected client.
pub fn broadcast(clients: &Vec<Client>, message: ServerMessage) -> (r: Effect)
    ensures
        sent(r, sockets(clients@), message),
{
    Effect::Send { to: connected(clients, None), message }
}

/// The message for every connected client but one.
pub fn broadcast_except(clients: &Vec<Client>, message: ServerMessage, skip: u128) -> (r: Effect)
    ensures
        sent(r, sockets_except(clients@, Some(skip)), message),
{
    Effect::Send { to: connected(clients, Some(skip)), message }
}

/// The message for one client; for nobody where that client is not there or
/// not connected.
pub fn send_to(clients: &Vec<Client>, id: u128, message: ServerMessage) -> (r: Effect)
    ensures
        sent(r, socket_of(clients@, id), message),
{
    let mut to: Vec<u128> = Vec::new();
    match find_client(clients, id) {
        Some(i) => {
            match clients[i].socket {
                Some(s) => {
                    to.push(s);
                },
                None => {},
            }
        },
        None => {},
    }
    assert(to@ =~= socket_of(clients@, id));
    Effect::Send { to, message }
}

/// What a snapshot of the room says about its clients.
pub fn client_infos(clients: &Vec<Client>) -> (r: Vec<ClientInfo>)
    ensures
        r.deep_view() == infos(clients@),
{
    let mut out: Vec<ClientInfo> = Vec::new();
    let mut i: usize = 0;
    while i < clients.len()
        invariant
            i <= clients@.len(),
            out@.len() == i,
            forall|k: int| 0 <= k < i ==> (#[trigger] out@[k]).deep_view() == infos(clients@)[k],
        decreases clients@.len() - i,
    {
        out.push(
            ClientInfo {
                uuid: clients[i].uuid,
                username: clients[i].username.clone(),
                disconnected: clients[i].socket.is_none(),
            },
        );
        i += 1;
    }
    assert(out.deep_view() =~= infos(clients@));
    out
}

} // verus!
