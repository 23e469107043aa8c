//! Calls into other crates and into parts of the standard library that have
//! no verified specification. The contracts in this file are taken on trust.

use vstd::prelude::*;
use rand::Rng;
use rand::seq::SliceRandom;
use rustrict::CensorStr;
use crate::room::Room;

verus! {

/// `dashmap::DashMap`, the map that holds the rooms by name.
#[verifier::external_type_specification]
#[verifier::external_body]
#[verifier::reject_recursive_types(K)]
#[verifier::reject_recursive_types(V)]
#[verifier::reject_recursive_types(S)]
pub struct ExDashMap<K, V, S>(dashmap::DashMap<K, V, S>);

/// The rooms that the map holds, by the text of their names.
pub uninterp spec fn table_rooms(table: dashmap::DashMap<String, Room>) -> Map<Seq<char>, Room>;

/// `DashMap::new`: a map that holds nothing.
#[verifier::external_body]
pub(crate) fn table_new() -> (table: dashmap::DashMap<String, Room>)
    ensures
        table_rooms(table).dom() == Set::<Seq<char>>::empty(),
{
    dashmap::DashMap::new()
}

/// `DashMap::remove`: takes the entry under the key out of the map and
/// hands its value back, if there was one. No other entry changes.
#[verifier::external_body]
pub(crate) fn table_take(table: &mut dashmap::DashMap<String, Room>, name: &str) -> (r: Option<
    Room,
>)
    ensures
        table_rooms(*final(table)) == table_rooms(*old(table)).remove(name@),
        r == if table_rooms(*old(table)).contains_key(name@) {
            Some(table_rooms(*old(table))[name@])
        } else {
            None
        },
{
    table.remove(name).map(|entry| entry.1)
}

/// `DashMap::insert`: puts the value under the key, in place of a value that
/// was there. No other entry changes.
#[verifier::external_body]
pub(crate) fn table_put(table: &mut dashmap::DashMap<String, Room>, name: String, room: Room)
    ensures
        table_rooms(*final(table)) == table_rooms(*old(table)).insert(name@, room),
{
    table.insert(name, room);
}

/// `DashMap::contains_key`: whether the map holds an entry under the key.
#[verifier::external_body]
pub(crate) fn table_has(table: &dashmap::DashMap<String, Room>, name: &str) -> (r: bool)
    ensures
        r == table_rooms(*table).contains_key(name@),
{
    table.contains_key(name)
}

/// `DashMap::iter`, and `key` on what it yields: the keys of the entries,
/// each once, in the order in which the map is walked, which is left open.
#[verifier::external_body]
pub(crate) fn table_names(table: &dashmap::DashMap<String, Room>) -> (r: Vec<String>)
    ensures
        r.deep_view().no_duplicates(),
        r.deep_view().to_set() == table_rooms(*table).dom(),
{
    table.iter().map(|entry| entry.key().clone()).collect()
}

/// A keyed rate limiter of `governor`, on its default clock and store. Its
/// type is bound by traits of that crate, so it is kept out of sight here.
#[verifier::external_body]
pub struct Limiter {
    inner: governor::DefaultKeyedRateLimiter<u128>,
}

/// The quota that the limiter was made with: how many cells a second it lets
/// through for each key in the long run, and how many at once.
pub uninterp spec fn limiter_quota(limiter: Limiter) -> (u32, u32);

/// `RateLimiter::keyed` with `Quota::per_second` and `Quota::allow_burst`: a
/// limiter that lets `per_second` cells a second through for each key, and
/// `burst` at once, and keeps that quota for good. Both numbers must be
/// positive.
#[verifier::external_body]
pub(crate) fn limiter_new(per_second: u32, burst: u32) -> (r: Limiter)
    requires
        per_second > 0,
        burst > 0,
    ensures
        limiter_quota(r) == (per_second, burst),
{
    let rate = std::num::NonZeroU32::new(per_second).unwrap();
    let most = std::num::NonZeroU32::new(burst).unwrap();
    Limiter { inner: governor::RateLimiter::keyed(governor::Quota::per_second(rate).allow_burst(most)) }
}

/// `RateLimiter::check_key`: whether a cell for the key is let through now.
/// The answer depends on the clock and on earlier calls: nothing is claimed
/// of it.
#[verifier::external_body]
pub(crate) fn limiter_check(limiter: &Limiter, id: u128) -> (allowed: bool) {
    limiter.inner.check_key(&id).is_ok()
}

/// What `char::is_alphabetic` answers for a character.
pub uninterp spec fn alphabetic(c: char) -> bool;

/// `char::is_alphabetic`: whether the character has the Unicode property
/// Alphabetic. The answer depends on the character alone.
#[verifier::external_body]
pub(crate) fn is_alphabetic(c: char) -> (r: bool)
    ensures
        r == alphabetic(c),
{
    c.is_alphabetic()
}

/// `String::push`: appends one character to the end of the string.
#[verifier::external_body]
pub(crate) fn push_char(s: &mut String, c: char)
    ensures
        final(s)@ == old(s)@.push(c),
{
    s.push(c)
}

/// `Uuid::new_v4`, packed into 128 bits by `Uuid::as_u128`. The value is
/// random: nothing is claimed of it.
#[verifier::external_body]
pub(crate) fn fresh_id() -> (id: u128) {
    uuid::Uuid::new_v4().as_u128()
}

/// `Rng::gen_range` of the thread's generator on `low..=high`: the value lies
/// in the range. The range must not be empty, or the call panics.
#[verifier::external_body]
pub(crate) fn random_between(low: u64, high: u64) -> (r: u64)
    requires
        low <= high,
    ensures
        low <= r <= high,
{
    rand::thread_rng().gen_range(low..=high)
}

/// `SliceRandom::shuffle` with the thread's generator: reorders the items in
/// place, so the same items are there afterwards, each as often as before.
#[verifier::external_body]
pub(crate) fn shuffle<T>(v: &mut Vec<T>)
    ensures
        final(v)@.to_multiset() == old(v)@.to_multiset(),
{
    v.shuffle(&mut rand::thread_rng())
}

/// The text that `rustrict` hands back for a text.
pub uninterp spec fn censored(text: Seq<char>) -> Seq<char>;

/// `CensorStr::censor` on a `&str`: a newly allocated, censored copy. With the
/// crate's built-in word list the result depends on the text alone.
#[verifier::external_body]
pub(crate) fn censor(text: &str) -> (r: String)
    ensures
        r@ == censored(text@),
{
    text.censor()
}

} // verus!
