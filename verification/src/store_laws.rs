//! What holds of the keyspace across operations: counting, list order,
//! expiry, and the snapshot that restores what it saved.

use crate::store::{
    after_counter, after_push, counter_result, deadline, is_live, lists_all, lookup, no_entries,
    push_result, pushed, restored, saved_view, RedisValue, SetOptions, Shape, StoredValue,
};
use vstd::prelude::*;

verus! {

/// The entries after `count` increments of `key`, the i-th of them at the
/// time `times[i]`.
pub open spec fn incremented(
    entries: Map<Seq<u8>, StoredValue>,
    key: Seq<u8>,
    times: Seq<u64>,
    count: nat,
) -> Map<Seq<u8>, StoredValue>
    decreases count,
{
    if count == 0 {
        entries
    } else {
        after_counter(
            incremented(entries, key, times, (count - 1) as nat),
            key,
            1,
            times[count - 1],
        )
    }
}

/// Increments of an absent key count up from one: the n-th of them answers
/// n, whenever each of them comes, and leaves a counter of n without a
/// deadline. No increment is lost and no answer comes twice.
pub proof fn law_increments_count_up(
    entries: Map<Seq<u8>, StoredValue>,
    key: Seq<u8>,
    times: Seq<u64>,
    n: nat,
)
    requires
        1 <= n <= times.len(),
        n <= i64::MAX,
        lookup(entries, key, times[0]).is_none(),
    ensures
        counter_result(
            lookup(incremented(entries, key, times, (n - 1) as nat), key, times[n - 1]),
            1,
        ) == Ok::<i64, crate::store::StoreError>(n as i64),
        incremented(entries, key, times, n)[key] == (StoredValue {
            shape: Shape::Counter(n as i64),
            expires_at: None,
        }),
        incremented(entries, key, times, n).contains_key(key),
    decreases n,
{
    if n > 1 {
        law_increments_count_up(entries, key, times, (n - 1) as nat);
    }
}

/// A push at the tail and then a push at the head: the values pushed at
/// the head stand first, the last of them in front, then the list as it
/// was, then the values pushed at the tail in their order. The length is
/// the sum of the three.
pub proof fn law_push_order(list: Seq<Seq<u8>>, tail: Seq<Seq<u8>>, head: Seq<Seq<u8>>)
    ensures
        pushed(pushed(list, tail, false), head, true) == head.reverse() + list + tail,
        pushed(pushed(list, tail, false), head, true).len() == head.len() + list.len()
            + tail.len(),
        forall|i: int|
            0 <= i < head.len() ==> pushed(pushed(list, tail, false), head, true)[i]
                == head[head.len() - 1 - i],
{
    assert(head.reverse() + (list + tail) =~= head.reverse() + list + tail);
}

/// A push changes nothing but the list under its key, and that only by
/// adding to it: the entry keeps its deadline, and every other key holds
/// what it held.
pub proof fn law_push_touches_one_key(
    entries: Map<Seq<u8>, StoredValue>,
    key: Seq<u8>,
    values: Seq<Seq<u8>>,
    front: bool,
    now: u64,
    other: Seq<u8>,
)
    requires
        other != key,
    ensures
        after_push(entries, key, values, front, now).contains_key(other) == entries.contains_key(
            other,
        ),
        entries.contains_key(other) ==> after_push(entries, key, values, front, now)[other]
            == entries[other],
        push_result(lookup(entries, key, now), values, front) is Err ==> lookup(
            after_push(entries, key, values, front, now),
            key,
            now,
        ) == lookup(entries, key, now),
{
}

/// A key written with a time to live is present at every time before its
/// deadline and absent from the deadline on; written without one, it is
/// present at all times.
pub proof fn law_ttl_expiry(
    entries: Map<Seq<u8>, StoredValue>,
    key: Seq<u8>,
    shape: Shape,
    options: SetOptions,
    t0: u64,
    t: u64,
)
    ensures
        ({
            let written = StoredValue { shape, expires_at: deadline(options, t0) };
            let after = entries.insert(key, written);
            match deadline(options, t0) {
                None => lookup(after, key, t) == Some(written),
                Some(end) => lookup(after, key, t) == (if t < end {
                    Some(written)
                } else {
                    None
                }),
            }
        }),
{
}

/// A time to live of `millis` milliseconds, given at `t0`, ends at
/// `t0 + millis`, and one of `seconds` seconds at `t0 + 1000 * seconds`,
/// where that is a time at all. A time to live of zero or less has ended
/// when it is given.
pub proof fn law_relative_deadline(millis: i64, seconds: i64, t0: u64)
    ensures
        0 <= t0 + millis <= u64::MAX ==> deadline(SetOptions::PX(millis), t0) == Some(
            (t0 + millis) as u64,
        ),
        0 <= t0 + seconds * 1000 <= u64::MAX ==> deadline(SetOptions::EX(seconds), t0) == Some(
            (t0 + seconds * 1000) as u64,
        ),
        millis <= 0 ==> !is_live(
            StoredValue { shape: Shape::Counter(0), expires_at: deadline(SetOptions::PX(millis), t0) },
            t0,
        ),
        seconds <= 0 ==> !is_live(
            StoredValue {
                shape: Shape::Counter(0),
                expires_at: deadline(SetOptions::EX(seconds), t0),
            },
            t0,
        ),
{
}

/// The part of the keyspace that an observer at time `now` can see.
pub open spec fn live_part(entries: Map<Seq<u8>, StoredValue>, now: u64) -> Map<
    Seq<u8>,
    StoredValue,
> {
    Map::new(|k: Seq<u8>| lookup(entries, k, now).is_some(), |k: Seq<u8>| entries[k])
}

/// A snapshot restores what it saved: written into an empty keyspace at
/// time `now`, the snapshot of a keyspace gives the entries of that
/// keyspace that are live at `now`, deadlines included, and nothing else.
pub proof fn law_snapshot_round_trip(
    entries: Map<Seq<u8>, StoredValue>,
    saved: Seq<(Vec<u8>, RedisValue)>,
    now: u64,
)
    requires
        lists_all(saved, entries),
    ensures
        restored(no_entries(), saved_view(saved), now) == live_part(entries, now),
{
    lemma_restored_prefix(entries, saved, now, saved.len() as int);
    let all = saved_view(saved);
    assert(all.take(saved.len() as int) =~= all);
    let got = restored(no_entries(), all, now);
    assert forall|k: Seq<u8>| got.contains_key(k) <==> live_part(entries, now).contains_key(
        k,
    ) by {
        if live_part(entries, now).contains_key(k) {
            assert(entries.contains_key(k) && is_live(entries[k], now));
            let i = choose|i: int| 0 <= i < saved.len() && #[trigger] saved[i].0@ == k;
            assert(entries[saved[i].0@] == saved[i].1@);
            assert(all[i].0 == k && all[i].1 == entries[k]);
            assert(is_live(all[i].1, now));
            assert(got.contains_key(k));
        }
        if got.contains_key(k) {
            let i = choose|i: int|
                0 <= i < saved.len() && all[i].0 == k && is_live(#[trigger] all[i].1, now);
            assert(entries.contains_key(saved[i].0@) && entries[saved[i].0@] == saved[i].1@);
            assert(all[i].1 == saved[i].1@);
            assert(lookup(entries, k, now).is_some());
        }
    }
    assert(got =~= live_part(entries, now));
}

/// What the first `n` pairs of a snapshot restore: the live ones among
/// them, each under its key.
proof fn lemma_restored_prefix(
    entries: Map<Seq<u8>, StoredValue>,
    saved: Seq<(Vec<u8>, RedisValue)>,
    now: u64,
    n: int,
)
    requires
        lists_all(saved, entries),
        0 <= n <= saved.len(),
    ensures
        ({
            let all = saved_view(saved);
            let got = restored(no_entries(), all.take(n), now);
            &&& forall|k: Seq<u8>|
                got.contains_key(k) <==> exists|i: int|
                    0 <= i < n && all[i].0 == k && is_live(#[trigger] all[i].1, now)
            &&& forall|k: Seq<u8>| got.contains_key(k) ==> got[k] == entries[k]
        }),
    decreases n,
{
    let all = saved_view(saved);
    let got = restored(no_entries(), all.take(n), now);
    if n == 0 {
        assert(all.take(0) =~= Seq::<(Seq<u8>, StoredValue)>::empty());
    } else {
        lemma_restored_prefix(entries, saved, now, n - 1);
        let before = restored(no_entries(), all.take(n - 1), now);
        let last = all[n - 1];
        assert(all.take(n).drop_last() =~= all.take(n - 1));
        assert(all.take(n).last() == last);
        assert(entries.contains_key(saved[n - 1].0@) && entries[saved[n - 1].0@] == saved[n
            - 1].1@);
        assert forall|k: Seq<u8>| got.contains_key(k) <==> exists|i: int|
            0 <= i < n && all[i].0 == k && is_live(#[trigger] all[i].1, now) by {
            if got.contains_key(k) {
                if before.contains_key(k) {
                    let i = choose|i: int|
                        0 <= i < n - 1 && all[i].0 == k && is_live(#[trigger] all[i].1, now);
                    assert(0 <= i < n && all[i].0 == k && is_live(all[i].1, now));
                } else {
                    assert(all[n - 1].0 == k && is_live(all[n - 1].1, now));
                }
            }
            if exists|i: int| 0 <= i < n && all[i].0 == k && is_live(#[trigger] all[i].1, now) {
                let i = choose|i: int|
                    0 <= i < n && all[i].0 == k && is_live(#[trigger] all[i].1, now);
                if i < n - 1 {
                    assert(before.contains_key(k));
                }
            }
        }
        assert forall|k: Seq<u8>| got.contains_key(k) implies got[k] == entries[k] by {
            if is_live(last.1, now) && k == last.0 {
            } else {
                assert(before.contains_key(k));
            }
        }
    }
}

} // verus!
