//! The keyspace: typed values with optional deadlines, held in a sharded
//! hash map, and the operations on single keys.
//!
//! Every operation takes the current time as an argument. An entry whose
//! deadline has passed counts as absent, and the operation that meets it
//! removes it.
//!
//! Every operation that changes the keyspace takes the store by exclusive
//! reference: what it reads and what it writes under a key is one step, and
//! nothing comes between the two. A store that several tasks share
//! therefore stands behind one lock, which a task holds for the length of
//! one operation; the shards of the map inside do not let two tasks work
//! on one store at a time. Finer locking means several stores, each behind
//! a lock of its own and each with its own part of the keys.

use crate::clock::current_time_ms;
use crate::decimal::{i64_of_decimal, parse_i64};
use dashmap::DashMap;
use std::collections::VecDeque;
use vstd::prelude::*;

verus! {

/// How many keys one sweep looks at, at most.
pub const SWEEP_SAMPLE: usize = 20;

/// The shortest time between two sweeps, in milliseconds.
pub const SWEEP_INTERVAL_MS: u64 = 100;

/// The model of what a key holds.
pub enum Shape {
    Text(Seq<u8>),
    Counter(i64),
    List(Seq<Seq<u8>>),
}

/// The model of an entry: its shape, and the time from which it counts as
/// absent, in milliseconds since the epoch.
pub struct StoredValue {
    pub shape: Shape,
    pub expires_at: Option<u64>,
}

/// The model of the keyspace and of the sweeper's schedule.
pub struct StoreState {
    pub entries: Map<Seq<u8>, StoredValue>,
    pub next_cleanup: u64,
    pub cleanup_interval: u64,
}

/// What a key holds: text, a list of texts, or a counter.
#[derive(Debug, Clone)]
pub enum RedisValueType {
    String(Vec<u8>),
    List(VecDeque<Vec<u8>>),
    Integer(i64),
}

/// An entry: what the key holds, and the time from which the entry counts
/// as absent, in milliseconds since the epoch.
#[derive(Debug, Clone)]
pub struct RedisValue {
    pub data: RedisValueType,
    pub expiry: Option<u64>,
}

/// When an entry written by `SET` expires.
#[derive(Debug, Clone, Copy)]
pub enum SetOptions {
    /// Never.
    NoExpiry,
    /// This many seconds from now.
    EX(i64),
    /// This many milliseconds from now.
    PX(i64),
    /// At this many seconds since the epoch.
    EXAT(i64),
    /// At this many milliseconds since the epoch.
    PXAT(i64),
}

/// Why an operation on a key was refused.
#[derive(Debug, Clone, Copy, PartialEq, Eq, Structural)]
pub enum StoreError {
    /// The key holds text that is no signed 64-bit decimal numeral.
    NotAnInteger,
    /// The result would not fit in 64 bits.
    Overflow,
    /// The key holds a value of another shape.
    WrongType,
}

/// The byte strings that a sequence of vectors stands for.
pub open spec fn list_view(items: Seq<Vec<u8>>) -> Seq<Seq<u8>> {
    Seq::new(items.len(), |i: int| items[i]@)
}

impl View for RedisValueType {
    type V = Shape;

    open spec fn view(&self) -> Shape {
        match self {
            RedisValueType::String(bytes) => Shape::Text(bytes@),
            RedisValueType::List(items) => Shape::List(list_view(items@)),
            RedisValueType::Integer(n) => Shape::Counter(*n),
        }
    }
}

impl View for RedisValue {
    type V = StoredValue;

    open spec fn view(&self) -> StoredValue {
        StoredValue { shape: self.data@, expires_at: self.expiry }
    }
}

/// An entry counts as present until its deadline.
pub open spec fn is_live(v: StoredValue, now: u64) -> bool {
    match v.expires_at {
        Some(deadline) => now < deadline,
        None => true,
    }
}

/// What an observer at time `now` finds under `key`.
pub open spec fn lookup(entries: Map<Seq<u8>, StoredValue>, key: Seq<u8>, now: u64) -> Option<
    StoredValue,
> {
    if entries.contains_key(key) && is_live(entries[key], now) {
        Some(entries[key])
    } else {
        None
    }
}

/// The entries after an observer at time `now` has looked at `key`: an
/// expired entry is gone.
pub open spec fn purge(entries: Map<Seq<u8>, StoredValue>, key: Seq<u8>, now: u64) -> Map<
    Seq<u8>,
    StoredValue,
> {
    if entries.contains_key(key) && !is_live(entries[key], now) {
        entries.remove(key)
    } else {
        entries
    }
}

/// The time nearest to `v` that 64 bits can hold.
pub open spec fn clamp_u64(v: int) -> u64 {
    if v < 0 {
        0
    } else if v > u64::MAX {
        u64::MAX
    } else {
        v as u64
    }
}

/// The absolute deadline, in milliseconds, that `options` asks for at time
/// `now`. A deadline before the epoch counts as the epoch, one past the end
/// of time as the end of time.
pub open spec fn deadline(options: SetOptions, now: u64) -> Option<u64> {
    match options {
        SetOptions::NoExpiry => None,
        SetOptions::EX(seconds) => Some(clamp_u64(now + seconds * 1000)),
        SetOptions::PX(millis) => Some(clamp_u64(now + millis)),
        SetOptions::EXAT(seconds) => Some(clamp_u64(seconds * 1000)),
        SetOptions::PXAT(millis) => Some(clamp_u64(millis as int)),
    }
}

/// Computes `deadline`.
pub fn compute_deadline(options: SetOptions, now: u64) -> (r: Option<u64>)
    ensures
        r == deadline(options, now),
{
    let target: i128 = match options {
        SetOptions::NoExpiry => {
            return None;
        },
        SetOptions::EX(seconds) => now as i128 + seconds as i128 * 1000,
        SetOptions::PX(millis) => now as i128 + millis as i128,
        SetOptions::EXAT(seconds) => seconds as i128 * 1000,
        SetOptions::PXAT(millis) => millis as i128,
    };
    if target < 0 {
        Some(0)
    } else if target > u64::MAX as i128 {
        Some(u64::MAX)
    } else {
        Some(target as u64)
    }
}

/// A sequence with one more element holds that element and what it held.
pub proof fn lemma_push_contains(s: Seq<Seq<u8>>, x: Seq<u8>)
    ensures
        forall|k: Seq<u8>| #[trigger] s.push(x).contains(k) <==> (s.contains(k) || k == x),
{
    assert forall|k: Seq<u8>| #[trigger] s.push(x).contains(k) <==> (s.contains(k) || k == x) by {
        if s.contains(k) {
            let j = choose|j: int| 0 <= j < s.len() && s[j] == k;
            assert(s.push(x)[j] == k);
        }
        if k == x {
            assert(s.push(x)[s.len() as int] == k);
        }
    }
}

/// How many of `keys` hold an entry at time `now`, a key that is listed
/// more than once counted once.
pub open spec fn live_count(
    entries: Map<Seq<u8>, StoredValue>,
    keys: Seq<Seq<u8>>,
    now: u64,
) -> nat
    decreases keys.len(),
{
    if keys.len() == 0 {
        0
    } else {
        let earlier = keys.drop_last();
        let key = keys.last();
        live_count(entries, earlier, now) + if lookup(entries, key, now).is_some()
            && !earlier.contains(key) {
            1nat
        } else {
            0nat
        }
    }
}

/// How many of `keys` hold an entry at time `now`, a key counted as often
/// as it is listed.
pub open spec fn present_count(
    entries: Map<Seq<u8>, StoredValue>,
    keys: Seq<Seq<u8>>,
    now: u64,
) -> nat
    decreases keys.len(),
{
    if keys.len() == 0 {
        0
    } else {
        present_count(entries, keys.drop_last(), now) + if lookup(entries, keys.last(), now)
            .is_some() {
            1nat
        } else {
            0nat
        }
    }
}

/// The number that arithmetic on an entry starts from: zero for an absent
/// key, the value of a counter, the value that a text denotes.
pub open spec fn counter_base(current: Option<StoredValue>) -> Result<i64, StoreError> {
    match current {
        None => Ok(0i64),
        Some(v) => match v.shape {
            Shape::Counter(n) => Ok(n),
            Shape::Text(text) => match i64_of_decimal(text) {
                Some(n) => Ok(n),
                None => Err(StoreError::NotAnInteger),
            },
            Shape::List(_) => Err(StoreError::WrongType),
        },
    }
}

/// What adding `delta` to an entry gives.
pub open spec fn counter_result(current: Option<StoredValue>, delta: int) -> Result<
    i64,
    StoreError,
> {
    match counter_base(current) {
        Err(e) => Err(e),
        Ok(n) => if i64::MIN <= n + delta <= i64::MAX {
            Ok((n + delta) as i64)
        } else {
            Err(StoreError::Overflow)
        },
    }
}

/// The deadline that an entry keeps when it is changed in place.
pub open spec fn kept_deadline(current: Option<StoredValue>) -> Option<u64> {
    match current {
        Some(v) => v.expires_at,
        None => None,
    }
}

/// The entries after `delta` was added under `key` at time `now`: a
/// counter with the sum and the deadline the entry had, or, where the sum
/// was refused, the entries as an observer leaves them.
pub open spec fn after_counter(
    entries: Map<Seq<u8>, StoredValue>,
    key: Seq<u8>,
    delta: int,
    now: u64,
) -> Map<Seq<u8>, StoredValue> {
    let current = lookup(entries, key, now);
    match counter_result(current, delta) {
        Ok(n) => entries.insert(
            key,
            StoredValue { shape: Shape::Counter(n), expires_at: kept_deadline(current) },
        ),
        Err(_) => purge(entries, key, now),
    }
}

/// The list that a push starts from: empty for an absent key.
pub open spec fn list_base(current: Option<StoredValue>) -> Result<Seq<Seq<u8>>, StoreError> {
    match current {
        None => Ok(Seq::empty()),
        Some(v) => match v.shape {
            Shape::List(items) => Ok(items),
            _ => Err(StoreError::WrongType),
        },
    }
}

/// `values` pushed onto `list` one by one, in the order given: at the head
/// (the last value ends up first) or at the tail.
pub open spec fn pushed(list: Seq<Seq<u8>>, values: Seq<Seq<u8>>, front: bool) -> Seq<Seq<u8>> {
    if front {
        values.reverse() + list
    } else {
        list + values
    }
}

/// What a push under `key` gives: the list's new length.
pub open spec fn push_result(
    current: Option<StoredValue>,
    values: Seq<Seq<u8>>,
    front: bool,
) -> Result<nat, StoreError> {
    match list_base(current) {
        Err(e) => Err(e),
        Ok(list) => Ok(pushed(list, values, front).len()),
    }
}

/// The entries after `values` were pushed under `key` at time `now`.
pub open spec fn after_push(
    entries: Map<Seq<u8>, StoredValue>,
    key: Seq<u8>,
    values: Seq<Seq<u8>>,
    front: bool,
    now: u64,
) -> Map<Seq<u8>, StoredValue> {
    let current = lookup(entries, key, now);
    match list_base(current) {
        Ok(list) => entries.insert(
            key,
            StoredValue {
                shape: Shape::List(pushed(list, values, front)),
                expires_at: kept_deadline(current),
            },
        ),
        Err(_) => purge(entries, key, now),
    }
}

/// The entries without those of `keys` whose entry has expired at `now`.
pub open spec fn swept(entries: Map<Seq<u8>, StoredValue>, keys: Seq<Seq<u8>>, now: u64) -> Map<
    Seq<u8>,
    StoredValue,
> {
    entries.remove_keys(
        Set::new(
            |k: Seq<u8>| keys.contains(k) && entries.contains_key(k) && !is_live(entries[k], now),
        ),
    )
}

/// The models of saved entries, pair by pair.
pub open spec fn saved_view(saved: Seq<(Vec<u8>, RedisValue)>) -> Seq<(Seq<u8>, StoredValue)> {
    Seq::new(saved.len(), |i: int| (saved[i].0@, saved[i].1@))
}

/// The entries after the pairs of `saved` that are live at `now` were
/// written over them, in the order given.
pub open spec fn restored(
    entries: Map<Seq<u8>, StoredValue>,
    saved: Seq<(Seq<u8>, StoredValue)>,
    now: u64,
) -> Map<Seq<u8>, StoredValue>
    decreases saved.len(),
{
    if saved.len() == 0 {
        entries
    } else {
        let before = restored(entries, saved.drop_last(), now);
        if is_live(saved.last().1, now) {
            before.insert(saved.last().0, saved.last().1)
        } else {
            before
        }
    }
}

/// `dashmap::DashMap`, as a type whose inside the verifier does not see.
#[verifier::external_type_specification]
#[verifier::external_body]
#[verifier::reject_recursive_types(K)]
#[verifier::reject_recursive_types(V)]
#[verifier::reject_recursive_types(S)]
pub struct ExDashMap<K, V, S>(DashMap<K, V, S>);

/// The entries that a map holds, key by key. Nothing is known of it but
/// what the functions below say of `DashMap`'s methods.
pub uninterp spec fn map_contents(m: DashMap<Vec<u8>, RedisValue>) -> Map<Seq<u8>, StoredValue>;

/// The empty keyspace.
pub open spec fn no_entries() -> Map<Seq<u8>, StoredValue> {
    Map::empty()
}

/// Whether `found` is what `contents` holds under `key`.
pub open spec fn is_entry_of(
    found: Option<RedisValue>,
    contents: Map<Seq<u8>, StoredValue>,
    key: Seq<u8>,
) -> bool {
    match found {
        Some(value) => contents.contains_key(key) && value@ == contents[key],
        None => !contents.contains_key(key),
    }
}

/// Whether `found` is the deadline of what `contents` holds under `key`.
pub open spec fn is_expiry_of(
    found: Option<Option<u64>>,
    contents: Map<Seq<u8>, StoredValue>,
    key: Seq<u8>,
) -> bool {
    match found {
        Some(expiry) => contents.contains_key(key) && expiry == contents[key].expires_at,
        None => !contents.contains_key(key),
    }
}

/// Whether `listed` names every entry of `contents`, each once, with its value.
pub open spec fn lists_all(
    listed: Seq<(Vec<u8>, RedisValue)>,
    contents: Map<Seq<u8>, StoredValue>,
) -> bool {
    &&& forall|i: int|
        0 <= i < listed.len() ==> contents.contains_key(#[trigger] listed[i].0@)
            && contents[listed[i].0@] == listed[i].1@
    &&& forall|i: int, j: int|
        0 <= i < j < listed.len() ==> #[trigger] listed[i].0@ != #[trigger] listed[j].0@
    &&& forall|k: Seq<u8>|
        contents.contains_key(k) ==> exists|i: int|
            0 <= i < listed.len() && #[trigger] listed[i].0@ == k
}

/// Whether `keys` is a sample of at most `limit` keys of `contents`: keys
/// that the map holds, none of them twice, and all of the map's keys where
/// they are fewer than the limit.
pub open spec fn samples(
    keys: Seq<Seq<u8>>,
    contents: Map<Seq<u8>, StoredValue>,
    limit: int,
) -> bool {
    &&& keys.len() <= limit
    &&& forall|i: int| 0 <= i < keys.len() ==> contents.contains_key(#[trigger] keys[i])
    &&& forall|i: int, j: int|
        0 <= i < j < keys.len() ==> #[trigger] keys[i] != #[trigger] keys[j]
    &&& (keys.len() < limit ==> forall|k: Seq<u8>|
        contents.contains_key(k) ==> keys.contains(k))
}

/// `DashMap::new`: a map without entries.
#[verifier::external_body]
fn map_new() -> (created: DashMap<Vec<u8>, RedisValue>)
    ensures
        map_contents(created) == no_entries(),
{
    DashMap::new()
}

/// `DashMap::get`, and a copy of the value found: the entry under `key`,
/// if the map holds one. The map stays as it is.
#[verifier::external_body]
fn map_get(m: &DashMap<Vec<u8>, RedisValue>, key: &[u8]) -> (found: Option<RedisValue>)
    ensures
        is_entry_of(found, map_contents(*m), key@),
{
    match m.get(key) {
        Some(entry) => Some(entry.value().clone()),
        None => None,
    }
}

/// `DashMap::get`, and the deadline of the value found. The map stays as
/// it is.
#[verifier::external_body]
fn map_expiry(m: &DashMap<Vec<u8>, RedisValue>, key: &[u8]) -> (found: Option<Option<u64>>)
    ensures
        is_expiry_of(found, map_contents(*m), key@),
{
    match m.get(key) {
        Some(entry) => Some(entry.value().expiry),
        None => None,
    }
}

/// `DashMap::insert`: afterwards the map holds `value` under `key`, in
/// place of what it held there, and every other entry as before.
#[verifier::external_body]
fn map_insert(m: &mut DashMap<Vec<u8>, RedisValue>, key: Vec<u8>, value: RedisValue)
    ensures
        map_contents(*final(m)) == map_contents(*old(m)).insert(key@, value@),
{
    m.insert(key, value);
}

/// `DashMap::remove`: hands out the value under `key`, if there is one;
/// afterwards the map holds nothing under `key`, and every other entry as
/// before.
#[verifier::external_body]
fn map_remove(m: &mut DashMap<Vec<u8>, RedisValue>, key: &[u8]) -> (taken: Option<RedisValue>)
    ensures
        is_entry_of(taken, map_contents(*old(m)), key@),
        map_contents(*final(m)) == map_contents(*old(m)).remove(key@),
{
    match m.remove(key) {
        Some((_, value)) => Some(value),
        None => None,
    }
}

/// `DashMap::iter`, cut off after `limit` entries: copies of the keys of
/// the first entries that the map comes to as it walks its shards, each
/// shard once and each entry in it once. So the keys are keys of the map,
/// none comes twice, and where the walk was not cut off they are all of
/// the map's keys. Which entries come first is up to the map.
#[verifier::external_body]
fn map_sample_keys(m: &DashMap<Vec<u8>, RedisValue>, limit: usize) -> (keys: Vec<Vec<u8>>)
    ensures
        samples(list_view(keys@), map_contents(*m), limit as int),
{
    m.iter().take(limit).map(|entry| entry.key().clone()).collect()
}

/// `DashMap::iter`, to the end: a copy of every entry, each once, in the
/// order in which the map happens to walk its shards.
#[verifier::external_body]
fn map_entries(m: &DashMap<Vec<u8>, RedisValue>) -> (listed: Vec<(Vec<u8>, RedisValue)>)
    ensures
        lists_all(listed@, map_contents(*m)),
{
    m.iter().map(|entry| (entry.key().clone(), entry.value().clone())).collect()
}

/// The keyspace and the sweeper's schedule.
pub struct RedisStore {
    data: DashMap<Vec<u8>, RedisValue>,
    next_cleanup: u64,
    cleanup_interval: u64,
}

impl View for RedisStore {
    type V = StoreState;

    closed spec fn view(&self) -> StoreState {
        StoreState {
            entries: map_contents(self.data),
            next_cleanup: self.next_cleanup,
            cleanup_interval: self.cleanup_interval,
        }
    }
}

/// An empty keyspace whose first sweep is due at `now`.
pub open spec fn initial_state(now: u64) -> StoreState {
    StoreState { entries: no_entries(), next_cleanup: now, cleanup_interval: SWEEP_INTERVAL_MS }
}

/// What `maybe_cleanup` at time `now` makes of the state `before`: nothing
/// before a sweep is due; from then on the next sweep is due one interval
/// later, and of a sample of the keyspace the expired entries are gone.
pub open spec fn cleaned(before: StoreState, after: StoreState, now: u64) -> bool {
    if now < before.next_cleanup {
        after == before
    } else {
        &&& after.cleanup_interval == before.cleanup_interval
        &&& after.next_cleanup == clamp_u64(now + before.cleanup_interval)
        &&& exists|sample: Seq<Seq<u8>>|
            samples(sample, before.entries, SWEEP_SAMPLE as int) && #[trigger] swept(
                before.entries,
                sample,
                now,
            ) == after.entries
    }
}

/// The state `s` with other entries and the same schedule.
pub open spec fn with_entries(s: StoreState, entries: Map<Seq<u8>, StoredValue>) -> StoreState {
    StoreState { entries, next_cleanup: s.next_cleanup, cleanup_interval: s.cleanup_interval }
}

/// Whether `found` stands for `expected`.
pub open spec fn value_is(found: Option<RedisValue>, expected: Option<StoredValue>) -> bool {
    match expected {
        Some(v) => found matches Some(x) && x@ == v,
        None => found is None,
    }
}

impl RedisStore {
    /// An empty keyspace whose first sweep is due at `now`.
    pub fn new_at(now: u64) -> (store: RedisStore)
        ensures
            store@ == initial_state(now),
    {
        RedisStore { data: map_new(), next_cleanup: now, cleanup_interval: SWEEP_INTERVAL_MS }
    }

    /// An empty keyspace whose first sweep is due at the time that the
    /// clock shows.
    pub fn new() -> (store: RedisStore)
        ensures
            exists|now: u64| store@ == #[trigger] initial_state(now),
    {
        let now = current_time_ms();
        let store = RedisStore::new_at(now);
        assert(store@ == initial_state(now));
        store
    }

    /// Runs the sweeper, if one is due at the time that the clock shows.
    pub fn cleanup_now(&mut self)
        ensures
            exists|now: u64| #[trigger]
                cleaned(old(self)@, final(self)@, now),
    {
        let now = current_time_ms();
        self.maybe_cleanup(now);
        assert(cleaned(old(self)@, self@, now));
    }

    /// A copy of what `key` holds at time `now`.
    pub fn get(&mut self, key: &[u8], now: u64) -> (found: Option<RedisValue>)
        ensures
            value_is(found, lookup(old(self)@.entries, key@, now)),
            final(self)@ == with_entries(old(self)@, purge(old(self)@.entries, key@, now)),
    {
        match map_get(&self.data, key) {
            Some(value) => {
                if let Some(expiry) = value.expiry {
                    if now >= expiry {
                        map_remove(&mut self.data, key);
                        return None;
                    }
                }
                Some(value)
            },
            None => None,
        }
    }

    /// Writes `value` under `key`, in place of whatever stood there, with
    /// the deadline that `options` asks for; without one the entry never
    /// expires, whatever deadline the key had.
    pub fn set_with_options(
        &mut self,
        key: Vec<u8>,
        value: RedisValueType,
        options: SetOptions,
        now: u64,
    )
        ensures
            final(self)@ == with_entries(
                old(self)@,
                old(self)@.entries.insert(
                    key@,
                    StoredValue { shape: value@, expires_at: deadline(options, now) },
                ),
            ),
    {
        let expiry = compute_deadline(options, now);
        map_insert(&mut self.data, key, RedisValue { data: value, expiry });
    }

    /// Whether `key` holds anything at time `now`.
    pub fn exists_key(&mut self, key: &[u8], now: u64) -> (present: bool)
        ensures
            present == lookup(old(self)@.entries, key@, now).is_some(),
            final(self)@ == with_entries(old(self)@, purge(old(self)@.entries, key@, now)),
    {
        match map_expiry(&self.data, key) {
            Some(Some(expiry)) => {
                if now >= expiry {
                    map_remove(&mut self.data, key);
                    false
                } else {
                    true
                }
            },
            Some(None) => true,
            None => false,
        }
    }

    /// Removes every key of `keys`, and says how many of them held an
    /// entry at time `now`.
    pub fn del(&mut self, keys: &Vec<Vec<u8>>, now: u64) -> (removed: usize)
        ensures
            removed == live_count(old(self)@.entries, list_view(keys@), now),
            final(self)@ == with_entries(
                old(self)@,
                old(self)@.entries.remove_keys(list_view(keys@).to_set()),
            ),
    {
        let ghost before = self@.entries;
        let ghost names = list_view(keys@);
        let mut removed: usize = 0;
        let mut i: usize = 0;
        proof {
            assert(names.take(0) =~= Seq::<Seq<u8>>::empty());
            assert(names.take(0).to_set() =~= Set::<Seq<u8>>::empty());
            assert(before.remove_keys(Set::<Seq<u8>>::empty()) =~= before);
        }
        while i < keys.len()
            invariant
                i <= keys.len(),
                names == list_view(keys@),
                before == old(self)@.entries,
                removed == live_count(before, names.take(i as int), now),
                removed <= i,
                self@ == with_entries(
                    old(self)@,
                    before.remove_keys(names.take(i as int).to_set()),
                ),
            decreases keys.len() - i,
        {
            let ghost earlier = names.take(i as int);
            let ghost key = names[i as int];
            let taken = map_remove(&mut self.data, keys[i].as_slice());
            proof {
                assert(names.take(i + 1) =~= earlier.push(key));
                assert(names.take(i + 1).drop_last() =~= earlier);
                lemma_push_contains(earlier, key);
                assert(earlier.push(key).to_set() =~= earlier.to_set().insert(key));
                assert(before.remove_keys(earlier.to_set()).remove(key) =~= before.remove_keys(
                    earlier.push(key).to_set(),
                ));
                assert(earlier.contains(key) <==> earlier.to_set().contains(key));
            }
            if let Some(value) = taken {
                let live = match value.expiry {
                    Some(deadline) => now < deadline,
                    None => true,
                };
                if live {
                    removed += 1;
                }
            }
            i += 1;
        }
        proof {
            assert(names.take(keys.len() as int) =~= names);
        }
        removed
    }

    /// Says how many of `keys` hold an entry at time `now`, a key counted
    /// as often as it is listed. The expired entries among them are gone
    /// afterwards.
    pub fn exists_count(&mut self, keys: &Vec<Vec<u8>>, now: u64) -> (present: usize)
        ensures
            present == present_count(old(self)@.entries, list_view(keys@), now),
            final(self)@ == with_entries(
                old(self)@,
                swept(old(self)@.entries, list_view(keys@), now),
            ),
    {
        let ghost before = self@.entries;
        let ghost names = list_view(keys@);
        let mut present: usize = 0;
        let mut i: usize = 0;
        proof {
            assert(self@.entries =~= swept(before, names.take(0), now));
        }
        while i < keys.len()
            invariant
                i <= keys.len(),
                names == list_view(keys@),
                before == old(self)@.entries,
                present == present_count(before, names.take(i as int), now),
                present <= i,
                self@ == with_entries(old(self)@, swept(before, names.take(i as int), now)),
            decreases keys.len() - i,
        {
            let ghost earlier = names.take(i as int);
            let ghost key = names[i as int];
            proof {
                assert(names.take(i + 1) =~= earlier.push(key));
                assert(names.take(i + 1).drop_last() =~= earlier);
                lemma_push_contains(earlier, key);
            }
            if self.exists_key(keys[i].as_slice(), now) {
                present += 1;
            }
            proof {
                assert(self@.entries =~= swept(before, names.take(i + 1), now));
            }
            i += 1;
        }
        proof {
            assert(names.take(keys.len() as int) =~= names);
        }
        present
    }

    /// Adds `delta` to the number under `key` and hands out the sum.
    ///
    /// An absent key counts as zero, and text that is a decimal numeral as
    /// its value; the entry becomes a counter and keeps its deadline. Text
    /// that is no numeral, a list, and a sum that does not fit in 64 bits are
    /// refused, and the entry stays as it was.
    pub fn incr_by(&mut self, key: &[u8], delta: i64, now: u64) -> (r: Result<i64, StoreError>)
        ensures
            r == counter_result(lookup(old(self)@.entries, key@, now), delta as int),
            final(self)@ == with_entries(
                old(self)@,
                after_counter(old(self)@.entries, key@, delta as int, now),
            ),
    {
        let ghost before = self@.entries;
        let taken = map_remove(&mut self.data, key);
        let stored: Vec<u8> = vstd::slice::slice_to_vec(key);
        match taken {
            Some(value) => {
                let live = match value.expiry {
                    Some(deadline) => now < deadline,
                    None => true,
                };
                if !live {
                    map_insert(
                        &mut self.data,
                        stored,
                        RedisValue { data: RedisValueType::Integer(delta), expiry: None },
                    );
                    assert(self@.entries =~= after_counter(before, key@, delta as int, now));
                    return Ok(delta);
                }
                let base: Result<i64, StoreError> = match &value.data {
                    RedisValueType::Integer(n) => Ok(*n),
                    RedisValueType::String(text) => match parse_i64(text.as_slice()) {
                        Some(n) => Ok(n),
                        None => Err(StoreError::NotAnInteger),
                    },
                    RedisValueType::List(_) => Err(StoreError::WrongType),
                };
                let sum: Result<i64, StoreError> = match base {
                    Ok(n) => match n.checked_add(delta) {
                        Some(total) => Ok(total),
                        None => Err(StoreError::Overflow),
                    },
                    Err(e) => Err(e),
                };
                match sum {
                    Ok(total) => {
                        map_insert(
                            &mut self.data,
                            stored,
                            RedisValue {
                                data: RedisValueType::Integer(total),
                                expiry: value.expiry,
                            },
                        );
                        assert(self@.entries =~= after_counter(before, key@, delta as int, now));
                        Ok(total)
                    },
                    Err(e) => {
                        map_insert(&mut self.data, stored, value);
                        assert(self@.entries =~= before);
                        Err(e)
                    },
                }
            },
            None => {
                map_insert(
                    &mut self.data,
                    stored,
                    RedisValue { data: RedisValueType::Integer(delta), expiry: None },
                );
                assert(self@.entries =~= after_counter(before, key@, delta as int, now));
                Ok(delta)
            },
        }
    }

    /// Adds one to the number under `key`.
    pub fn incr(&mut self, key: &[u8], now: u64) -> (r: Result<i64, StoreError>)
        ensures
            r == counter_result(lookup(old(self)@.entries, key@, now), 1),
            final(self)@ == with_entries(
                old(self)@,
                after_counter(old(self)@.entries, key@, 1, now),
            ),
    {
        self.incr_by(key, 1, now)
    }

    /// Takes one from the number under `key`.
    pub fn decr(&mut self, key: &[u8], now: u64) -> (r: Result<i64, StoreError>)
        ensures
            r == counter_result(lookup(old(self)@.entries, key@, now), -1),
            final(self)@ == with_entries(
                old(self)@,
                after_counter(old(self)@.entries, key@, -1, now),
            ),
    {
        self.incr_by(key, -1, now)
    }

    /// Pushes `values` onto the list under `key`, one by one in the order
    /// given, at the head or at the tail, and hands out the new length.
    ///
    /// An absent key counts as an empty list; the entry keeps its deadline.
    /// A key that holds text or a counter is refused and stays as it was.
    pub fn push(&mut self, key: &[u8], values: Vec<Vec<u8>>, front: bool, now: u64) -> (r: Result<
        usize,
        StoreError,
    >)
        ensures
            match push_result(lookup(old(self)@.entries, key@, now), list_view(values@), front) {
                Ok(n) => r matches Ok(len) && len == n,
                Err(e) => r matches Err(x) && x == e,
            },
            final(self)@ == with_entries(
                old(self)@,
                after_push(old(self)@.entries, key@, list_view(values@), front, now),
            ),
    {
        let ghost before = self@.entries;
        let ghost current = lookup(before, key@, now);
        let taken = map_remove(&mut self.data, key);
        let stored: Vec<u8> = vstd::slice::slice_to_vec(key);
        let mut list: VecDeque<Vec<u8>> = VecDeque::new();
        let mut expiry: Option<u64> = None;
        if let Some(value) = taken {
            let live = match value.expiry {
                Some(deadline) => now < deadline,
                None => true,
            };
            if live {
                match value.data {
                    RedisValueType::List(items) => {
                        list = items;
                        expiry = value.expiry;
                    },
                    other => {
                        map_insert(
                            &mut self.data,
                            stored,
                            RedisValue { data: other, expiry: value.expiry },
                        );
                        assert(self@.entries =~= before);
                        return Err(StoreError::WrongType);
                    },
                }
            }
        }
        let ghost base = list_view(list@);
        let ghost all = values@;
        proof {
            assert(list_base(current) == Ok::<Seq<Seq<u8>>, StoreError>(base)) by {
                if current is None {
                    assert(base =~= Seq::<Seq<u8>>::empty());
                }
            }
            assert(list_view(all.take(0)) =~= Seq::<Seq<u8>>::empty());
            assert(pushed(base, Seq::<Seq<u8>>::empty(), front) =~= base);
        }
        for value in it: values
            invariant
                it.seq() == all,
                list_view(list@) == pushed(base, list_view(all.take(it.index() as int)), front),
        {
            proof {
                let done = list_view(all.take(it.index() as int));
                assert(all.take(it.index() + 1) =~= all.take(it.index() as int).push(value));
                assert(list_view(all.take(it.index() + 1)) =~= done.push(value@));
                assert(done.push(value@).reverse() =~= seq![value@] + done.reverse());
                assert(list_view(list@.push(value)) =~= list_view(list@).push(value@));
                assert(list_view(seq![value] + list@) =~= seq![value@] + list_view(list@));
                assert(seq![value@] + (done.reverse() + base) =~= (seq![value@] + done.reverse())
                    + base);
                assert((base + done).push(value@) =~= base + done.push(value@));
            }
            if front {
                list.push_front(value);
            } else {
                list.push_back(value);
            }
        }
        proof {
            assert(all.take(all.len() as int) =~= all);
        }
        let len = list.len();
        map_insert(&mut self.data, stored, RedisValue { data: RedisValueType::List(list), expiry });
        assert(self@.entries =~= after_push(before, key@, list_view(all), front, now));
        Ok(len)
    }

    /// Pushes `values` at the head of the list under `key`: the last of
    /// them ends up first.
    pub fn lpush(&mut self, key: &[u8], values: Vec<Vec<u8>>, now: u64) -> (r: Result<
        usize,
        StoreError,
    >)
        ensures
            match push_result(lookup(old(self)@.entries, key@, now), list_view(values@), true) {
                Ok(n) => r matches Ok(len) && len == n,
                Err(e) => r matches Err(x) && x == e,
            },
            final(self)@ == with_entries(
                old(self)@,
                after_push(old(self)@.entries, key@, list_view(values@), true, now),
            ),
    {
        self.push(key, values, true, now)
    }

    /// Pushes `values` at the tail of the list under `key`, in the order given.
    pub fn rpush(&mut self, key: &[u8], values: Vec<Vec<u8>>, now: u64) -> (r: Result<
        usize,
        StoreError,
    >)
        ensures
            match push_result(lookup(old(self)@.entries, key@, now), list_view(values@), false) {
                Ok(n) => r matches Ok(len) && len == n,
                Err(e) => r matches Err(x) && x == e,
            },
            final(self)@ == with_entries(
                old(self)@,
                after_push(old(self)@.entries, key@, list_view(values@), false, now),
            ),
    {
        self.push(key, values, false, now)
    }

    /// Removes those of `keys` whose entry has expired at `now`.
    pub fn sweep(&mut self, keys: &Vec<Vec<u8>>, now: u64)
        ensures
            final(self)@ == with_entries(
                old(self)@,
                swept(old(self)@.entries, list_view(keys@), now),
            ),
    {
        let ghost before = self@.entries;
        let ghost names = list_view(keys@);
        let mut i: usize = 0;
        proof {
            assert(self@.entries =~= swept(before, names.take(0), now));
        }
        while i < keys.len()
            invariant
                i <= keys.len(),
                names == list_view(keys@),
                before == old(self)@.entries,
                self@ == with_entries(old(self)@, swept(before, names.take(i as int), now)),
            decreases keys.len() - i,
        {
            let ghost earlier = names.take(i as int);
            let ghost key = names[i as int];
            let ghost so_far = self@.entries;
            proof {
                assert(names.take(i + 1) =~= earlier.push(key));
                lemma_push_contains(earlier, key);
            }
            if let Some(Some(deadline)) = map_expiry(&self.data, keys[i].as_slice()) {
                if now >= deadline {
                    map_remove(&mut self.data, keys[i].as_slice());
                }
            }
            proof {
                assert(self@.entries =~= swept(before, names.take(i + 1), now));
            }
            i += 1;
        }
        proof {
            assert(names.take(keys.len() as int) =~= names);
        }
    }

    /// Runs the sweeper if one is due: not before `next_cleanup`, and then
    /// on a sample of `SWEEP_SAMPLE` keys of the map, or on all of its keys
    /// where they are fewer, after which the next sweep is due one interval
    /// later.
    ///
    /// Which keys the sample holds is up to the map. Of those it holds,
    /// every expired entry leaves, and every other entry stays as it was.
    pub fn maybe_cleanup(&mut self, now: u64)
        ensures
            cleaned(old(self)@, final(self)@, now),
    {
        if now < self.next_cleanup {
            return ;
        }
        self.next_cleanup = now.saturating_add(self.cleanup_interval);
        let keys = map_sample_keys(&self.data, SWEEP_SAMPLE);
        self.sweep(&keys, now);
        proof {
            let sample = list_view(keys@);
            assert(samples(sample, old(self)@.entries, SWEEP_SAMPLE as int));
            assert(swept(old(self)@.entries, sample, now) == self@.entries);
        }
    }

    /// A copy of every entry, each once: the whole keyspace as it stands,
    /// deadlines included.
    pub fn snapshot(&self) -> (saved: Vec<(Vec<u8>, RedisValue)>)
        ensures
            lists_all(saved@, self@.entries),
    {
        map_entries(&self.data)
    }

    /// Writes the pairs of `saved` that are live at `now` into the
    /// keyspace, in the order given. What the keyspace held under other
    /// keys stays.
    pub fn restore(&mut self, saved: Vec<(Vec<u8>, RedisValue)>, now: u64)
        ensures
            final(self)@ == with_entries(
                old(self)@,
                restored(old(self)@.entries, saved_view(saved@), now),
            ),
    {
        let ghost before = self@.entries;
        let ghost all = saved@;
        proof {
            assert(saved_view(all.take(0)) =~= Seq::<(Seq<u8>, StoredValue)>::empty());
        }
        for pair in it: saved
            invariant
                it.seq() == all,
                before == old(self)@.entries,
                self@ == with_entries(
                    old(self)@,
                    restored(before, saved_view(all.take(it.index() as int)), now),
                ),
        {
            proof {
                let done = saved_view(all.take(it.index() as int));
                assert(all.take(it.index() + 1) =~= all.take(it.index() as int).push(pair));
                assert(saved_view(all.take(it.index() + 1)) =~= done.push((pair.0@, pair.1@)));
                assert(done.push((pair.0@, pair.1@)).drop_last() =~= done);
            }
            let (key, value) = pair;
            let live = match value.expiry {
                Some(deadline) => now < deadline,
                None => true,
            };
            if live {
                map_insert(&mut self.data, key, value);
            }
        }
        proof {
            assert(all.take(all.len() as int) =~= all);
        }
    }
}

} // verus!
