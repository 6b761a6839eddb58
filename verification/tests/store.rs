use resp_store::store::{
    compute_deadline, RedisStore, RedisValue, RedisValueType, SetOptions, StoreError,
};
use std::collections::VecDeque;

fn text_of(store: &mut RedisStore, key: &[u8], now: u64) -> Option<Vec<u8>> {
    match store.get(key, now) {
        Some(RedisValue { data: RedisValueType::String(text), .. }) => Some(text),
        Some(other) => panic!("not text: {:?}", other),
        None => None,
    }
}

fn list_of(store: &mut RedisStore, key: &[u8], now: u64) -> Vec<Vec<u8>> {
    match store.get(key, now) {
        Some(RedisValue { data: RedisValueType::List(items), .. }) => items.into_iter().collect(),
        other => panic!("not a list: {:?}", other),
    }
}

fn set_text(store: &mut RedisStore, key: &[u8], value: &[u8], options: SetOptions, now: u64) {
    store.set_with_options(key.to_vec(), RedisValueType::String(value.to_vec()), options, now);
}

fn values(items: &[&[u8]]) -> Vec<Vec<u8>> {
    items.iter().map(|item| item.to_vec()).collect()
}

#[test]
fn a_new_store_is_empty() {
    let mut store = RedisStore::new_at(1_000);
    assert!(store.get(b"k", 1_000).is_none());
    assert!(!store.exists_key(b"k", 1_000));
    assert!(store.snapshot().is_empty());
    let mut other = RedisStore::new();
    assert!(other.get(b"k", 1_000).is_none());
}

#[test]
fn set_then_get_returns_the_value() {
    let mut store = RedisStore::new_at(0);
    set_text(&mut store, b"k", b"v", SetOptions::NoExpiry, 10);
    assert_eq!(text_of(&mut store, b"k", 10), Some(b"v".to_vec()));
    assert_eq!(text_of(&mut store, b"other", 10), None);
    assert!(store.exists_key(b"k", u64::MAX));
}

#[test]
fn set_replaces_the_value_and_the_deadline() {
    let mut store = RedisStore::new_at(0);
    set_text(&mut store, b"k", b"old", SetOptions::PX(50), 1_000);
    set_text(&mut store, b"k", b"new", SetOptions::NoExpiry, 1_010);
    assert_eq!(text_of(&mut store, b"k", 5_000), Some(b"new".to_vec()));
    let value = store.get(b"k", 5_000).unwrap();
    assert_eq!(value.expiry, None);
}

#[test]
fn deadlines_are_computed_in_milliseconds() {
    assert_eq!(compute_deadline(SetOptions::NoExpiry, 1_000), None);
    assert_eq!(compute_deadline(SetOptions::EX(3), 1_000), Some(4_000));
    assert_eq!(compute_deadline(SetOptions::PX(3), 1_000), Some(1_003));
    assert_eq!(compute_deadline(SetOptions::EXAT(3), 1_000), Some(3_000));
    assert_eq!(compute_deadline(SetOptions::PXAT(3), 1_000), Some(3));
    assert_eq!(compute_deadline(SetOptions::EX(0), 1_000), Some(1_000));
    assert_eq!(compute_deadline(SetOptions::EX(-1), 1_000), Some(0));
    assert_eq!(compute_deadline(SetOptions::PX(-5), 1_000), Some(995));
    assert_eq!(compute_deadline(SetOptions::PX(-5_000), 1_000), Some(0));
    assert_eq!(compute_deadline(SetOptions::EXAT(-1), 1_000), Some(0));
    assert_eq!(compute_deadline(SetOptions::PXAT(i64::MIN), 1_000), Some(0));
    assert_eq!(compute_deadline(SetOptions::EX(i64::MAX), 1_000), Some(u64::MAX));
    assert_eq!(compute_deadline(SetOptions::PX(i64::MAX), u64::MAX), Some(u64::MAX));
    assert_eq!(
        compute_deadline(SetOptions::PXAT(i64::MAX), 0),
        Some(9_223_372_036_854_775_807)
    );
}

#[test]
fn an_entry_is_present_until_its_deadline() {
    let mut store = RedisStore::new_at(0);
    set_text(&mut store, b"k", b"v", SetOptions::PX(50), 1_000);
    assert_eq!(text_of(&mut store, b"k", 1_030), Some(b"v".to_vec()));
    assert!(store.exists_key(b"k", 1_049));
    assert_eq!(text_of(&mut store, b"k", 1_050), None);
    assert!(!store.exists_key(b"k", 1_100));
    assert!(store.snapshot().is_empty());
}

#[test]
fn a_lookup_removes_an_expired_entry() {
    let mut store = RedisStore::new_at(0);
    set_text(&mut store, b"k", b"v", SetOptions::PX(50), 1_000);
    assert_eq!(store.snapshot().len(), 1);
    assert!(!store.exists_key(b"k", 2_000));
    assert_eq!(store.snapshot().len(), 0);
    set_text(&mut store, b"k", b"v", SetOptions::PX(50), 1_000);
    assert!(store.get(b"k", 2_000).is_none());
    assert_eq!(store.snapshot().len(), 0);
}

#[test]
fn a_ttl_of_zero_or_less_is_already_expired() {
    let mut store = RedisStore::new_at(0);
    set_text(&mut store, b"k", b"v", SetOptions::NoExpiry, 1_000);
    set_text(&mut store, b"k", b"w", SetOptions::EX(0), 1_000);
    assert_eq!(text_of(&mut store, b"k", 1_000), None);
    set_text(&mut store, b"j", b"w", SetOptions::PX(-1), 1_000);
    assert!(!store.exists_key(b"j", 1_000));
    set_text(&mut store, b"a", b"w", SetOptions::EXAT(0), 0);
    assert!(!store.exists_key(b"a", 0));
}

#[test]
fn del_counts_the_keys_that_were_there() {
    let mut store = RedisStore::new_at(0);
    set_text(&mut store, b"a", b"1", SetOptions::NoExpiry, 0);
    set_text(&mut store, b"b", b"2", SetOptions::NoExpiry, 0);
    set_text(&mut store, b"gone", b"3", SetOptions::PX(10), 0);
    assert_eq!(store.del(&values(&[b"missing"]), 100), 0);
    assert_eq!(store.del(&values(&[b"a", b"missing", b"a", b"gone", b"b"]), 100), 2);
    assert!(store.snapshot().is_empty());
    assert_eq!(store.del(&values(&[b"a"]), 100), 0);
    assert_eq!(store.del(&Vec::new(), 100), 0);
}

#[test]
fn exists_count_counts_a_key_as_often_as_it_is_listed() {
    let mut store = RedisStore::new_at(0);
    set_text(&mut store, b"a", b"1", SetOptions::NoExpiry, 0);
    set_text(&mut store, b"gone", b"3", SetOptions::PX(10), 0);
    assert_eq!(store.exists_count(&values(&[b"a", b"missing", b"a", b"gone"]), 100), 2);
    assert_eq!(store.snapshot().len(), 1);
}

#[test]
fn incr_counts_up_from_an_absent_key() {
    let mut store = RedisStore::new_at(0);
    assert_eq!(store.incr(b"n", 0), Ok(1));
    assert_eq!(store.incr(b"n", 0), Ok(2));
    assert_eq!(store.decr(b"n", 0), Ok(1));
    assert_eq!(store.decr(b"m", 0), Ok(-1));
    assert_eq!(store.incr_by(b"m", 10, 0), Ok(9));
    match store.get(b"n", 0) {
        Some(RedisValue { data: RedisValueType::Integer(1), expiry: None }) => {}
        other => panic!("unexpected {:?}", other),
    }
}

#[test]
fn many_increments_add_up() {
    let mut store = RedisStore::new_at(0);
    let mut seen = Vec::new();
    for _ in 0..200 {
        seen.push(store.incr(b"k", 0).unwrap());
    }
    let expected: Vec<i64> = (1..=200).collect();
    assert_eq!(seen, expected);
}

#[test]
fn incr_reads_text_as_a_numeral_and_makes_it_a_counter() {
    let mut store = RedisStore::new_at(0);
    set_text(&mut store, b"n", b"41", SetOptions::NoExpiry, 0);
    assert_eq!(store.incr(b"n", 0), Ok(42));
    match store.get(b"n", 0) {
        Some(RedisValue { data: RedisValueType::Integer(42), .. }) => {}
        other => panic!("unexpected {:?}", other),
    }
    set_text(&mut store, b"neg", b"-7", SetOptions::NoExpiry, 0);
    assert_eq!(store.decr(b"neg", 0), Ok(-8));
}

#[test]
fn incr_refuses_what_is_no_number_and_leaves_it() {
    let mut store = RedisStore::new_at(0);
    set_text(&mut store, b"s", b"hello", SetOptions::NoExpiry, 0);
    assert_eq!(store.incr(b"s", 0), Err(StoreError::NotAnInteger));
    assert_eq!(text_of(&mut store, b"s", 0), Some(b"hello".to_vec()));
    assert_eq!(store.rpush(b"l", values(&[b"a"]), 0), Ok(1));
    assert_eq!(store.incr(b"l", 0), Err(StoreError::WrongType));
    assert_eq!(list_of(&mut store, b"l", 0), values(&[b"a"]));
}

#[test]
fn incr_refuses_to_overflow_and_leaves_the_value() {
    let mut store = RedisStore::new_at(0);
    set_text(&mut store, b"big", b"9223372036854775807", SetOptions::NoExpiry, 0);
    assert_eq!(store.incr(b"big", 0), Err(StoreError::Overflow));
    assert_eq!(text_of(&mut store, b"big", 0), Some(b"9223372036854775807".to_vec()));
    assert_eq!(store.decr(b"big", 0), Ok(i64::MAX - 1));
    assert_eq!(store.incr(b"big", 0), Ok(i64::MAX));
    assert_eq!(store.incr(b"big", 0), Err(StoreError::Overflow));
    set_text(&mut store, b"small", b"-9223372036854775808", SetOptions::NoExpiry, 0);
    assert_eq!(store.decr(b"small", 0), Err(StoreError::Overflow));
    assert_eq!(store.incr_by(b"small", i64::MIN, 0), Err(StoreError::Overflow));
}

#[test]
fn incr_keeps_the_deadline_and_starts_over_after_it() {
    let mut store = RedisStore::new_at(0);
    set_text(&mut store, b"n", b"5", SetOptions::PX(100), 1_000);
    assert_eq!(store.incr(b"n", 1_050), Ok(6));
    assert_eq!(store.get(b"n", 1_050).unwrap().expiry, Some(1_100));
    assert_eq!(store.incr(b"n", 1_100), Ok(1));
    assert_eq!(store.get(b"n", 9_999).unwrap().expiry, None);
}

#[test]
fn rpush_appends_in_order() {
    let mut store = RedisStore::new_at(0);
    assert_eq!(store.rpush(b"l", values(&[b"a", b"b", b"c"]), 0), Ok(3));
    assert_eq!(list_of(&mut store, b"l", 0), values(&[b"a", b"b", b"c"]));
}

#[test]
fn lpush_puts_the_last_value_first() {
    let mut store = RedisStore::new_at(0);
    assert_eq!(store.lpush(b"l", values(&[b"a", b"b", b"c"]), 0), Ok(3));
    assert_eq!(list_of(&mut store, b"l", 0), values(&[b"c", b"b", b"a"]));
}

#[test]
fn rpush_then_lpush_gives_the_expected_order() {
    let mut store = RedisStore::new_at(0);
    assert_eq!(store.rpush(b"l", values(&[b"a", b"b", b"c"]), 0), Ok(3));
    assert_eq!(store.lpush(b"l", values(&[b"x", b"y"]), 0), Ok(5));
    assert_eq!(list_of(&mut store, b"l", 0), values(&[b"y", b"x", b"a", b"b", b"c"]));
}

#[test]
fn push_refuses_other_shapes_and_leaves_them() {
    let mut store = RedisStore::new_at(0);
    set_text(&mut store, b"s", b"text", SetOptions::NoExpiry, 0);
    assert_eq!(store.lpush(b"s", values(&[b"a"]), 0), Err(StoreError::WrongType));
    assert_eq!(store.rpush(b"s", values(&[b"a"]), 0), Err(StoreError::WrongType));
    assert_eq!(text_of(&mut store, b"s", 0), Some(b"text".to_vec()));
    assert_eq!(store.incr(b"n", 0), Ok(1));
    assert_eq!(store.rpush(b"n", values(&[b"a"]), 0), Err(StoreError::WrongType));
    assert_eq!(store.incr(b"n", 0), Ok(2));
}

#[test]
fn push_keeps_the_deadline_and_starts_over_after_it() {
    let mut store = RedisStore::new_at(0);
    let mut list = VecDeque::new();
    list.push_back(b"old".to_vec());
    store.restore(
        vec![(b"l".to_vec(), RedisValue { data: RedisValueType::List(list), expiry: Some(500) })],
        0,
    );
    assert_eq!(store.rpush(b"l", values(&[b"a"]), 100), Ok(2));
    assert_eq!(store.get(b"l", 100).unwrap().expiry, Some(500));
    assert_eq!(store.rpush(b"l", values(&[b"b"]), 500), Ok(1));
    assert_eq!(list_of(&mut store, b"l", 500), values(&[b"b"]));
    assert_eq!(store.get(b"l", 9_999).unwrap().expiry, None);
}

#[test]
fn sweep_removes_the_expired_among_the_keys_given() {
    let mut store = RedisStore::new_at(0);
    set_text(&mut store, b"a", b"1", SetOptions::PX(10), 0);
    set_text(&mut store, b"b", b"2", SetOptions::PX(10), 0);
    set_text(&mut store, b"c", b"3", SetOptions::PX(1_000), 0);
    set_text(&mut store, b"d", b"4", SetOptions::NoExpiry, 0);
    store.sweep(&values(&[b"a", b"c", b"d", b"missing"]), 100);
    let mut keys: Vec<Vec<u8>> = store.snapshot().into_iter().map(|(key, _)| key).collect();
    keys.sort();
    assert_eq!(keys, values(&[b"b", b"c", b"d"]));
}

#[test]
fn maybe_cleanup_waits_for_its_time() {
    let mut store = RedisStore::new_at(1_000);
    set_text(&mut store, b"a", b"1", SetOptions::PX(10), 0);
    store.maybe_cleanup(999);
    assert_eq!(store.snapshot().len(), 1);
    store.maybe_cleanup(1_000);
    assert_eq!(store.snapshot().len(), 0);
    set_text(&mut store, b"b", b"1", SetOptions::PX(10), 0);
    store.maybe_cleanup(1_099);
    assert_eq!(store.snapshot().len(), 1);
    store.maybe_cleanup(1_100);
    assert_eq!(store.snapshot().len(), 0);
}

#[test]
fn maybe_cleanup_removes_only_expired_entries_and_looks_at_twenty_at_most() {
    let mut store = RedisStore::new_at(0);
    for i in 0..50u32 {
        let key = format!("dead{}", i).into_bytes();
        set_text(&mut store, &key, b"x", SetOptions::PX(10), 0);
    }
    for i in 0..50u32 {
        let key = format!("live{}", i).into_bytes();
        set_text(&mut store, &key, b"x", SetOptions::NoExpiry, 0);
    }
    store.maybe_cleanup(100);
    let left = store.snapshot();
    let live = left.iter().filter(|(key, _)| key.starts_with(b"live")).count();
    let dead = left.iter().filter(|(key, _)| key.starts_with(b"dead")).count();
    assert_eq!(live, 50);
    assert!(dead >= 30 && dead <= 50);
    store.cleanup_now();
    let later = store.snapshot();
    assert_eq!(later.iter().filter(|(key, _)| key.starts_with(b"live")).count(), 50);
}

#[test]
fn maybe_cleanup_removes_every_expired_entry_of_a_small_keyspace() {
    let mut store = RedisStore::new_at(0);
    for i in 0..10u32 {
        let key = format!("dead{}", i).into_bytes();
        set_text(&mut store, &key, b"x", SetOptions::PX(10), 0);
    }
    for i in 0..9u32 {
        let key = format!("live{}", i).into_bytes();
        set_text(&mut store, &key, b"x", SetOptions::NoExpiry, 0);
    }
    store.maybe_cleanup(100);
    let left = store.snapshot();
    assert_eq!(left.len(), 9);
    assert!(left.iter().all(|(key, _)| key.starts_with(b"live")));
}

#[test]
fn maybe_cleanup_looks_at_twenty_keys_of_the_map() {
    let mut store = RedisStore::new_at(0);
    for i in 0..50u32 {
        let key = format!("dead{}", i).into_bytes();
        set_text(&mut store, &key, b"x", SetOptions::PX(10), 0);
    }
    store.maybe_cleanup(100);
    assert_eq!(store.snapshot().len(), 30);
    store.maybe_cleanup(200);
    assert_eq!(store.snapshot().len(), 10);
    store.maybe_cleanup(300);
    assert_eq!(store.snapshot().len(), 0);
}

#[test]
fn snapshot_lists_every_entry_once() {
    let mut store = RedisStore::new_at(0);
    set_text(&mut store, b"a", b"1", SetOptions::NoExpiry, 0);
    set_text(&mut store, b"b", b"2", SetOptions::EX(3600), 1_000);
    store.incr(b"n", 0).unwrap();
    let mut saved = store.snapshot();
    saved.sort_by(|x, y| x.0.cmp(&y.0));
    assert_eq!(saved.len(), 3);
    assert_eq!(saved[0].0, b"a".to_vec());
    assert_eq!(saved[1].0, b"b".to_vec());
    assert_eq!(saved[1].1.expiry, Some(3_601_000));
    assert_eq!(saved[2].0, b"n".to_vec());
}

#[test]
fn a_snapshot_restores_into_an_empty_store() {
    let mut store = RedisStore::new_at(0);
    set_text(&mut store, b"a", b"1", SetOptions::NoExpiry, 1_000);
    set_text(&mut store, b"b", b"2", SetOptions::EX(3600), 1_000);
    set_text(&mut store, b"short", b"3", SetOptions::PX(10), 1_000);
    let saved = store.snapshot();

    let mut restarted = RedisStore::new_at(2_000);
    restarted.restore(saved, 2_000);
    assert_eq!(text_of(&mut restarted, b"a", 2_000), Some(b"1".to_vec()));
    assert_eq!(text_of(&mut restarted, b"b", 2_000), Some(b"2".to_vec()));
    assert_eq!(restarted.get(b"b", 2_000).unwrap().expiry, Some(3_601_000));
    assert_eq!(text_of(&mut restarted, b"never set", 2_000), None);
    assert_eq!(restarted.snapshot().len(), 2);
}

#[test]
fn restore_keeps_what_the_store_held_under_other_keys() {
    let mut store = RedisStore::new_at(0);
    set_text(&mut store, b"kept", b"1", SetOptions::NoExpiry, 0);
    set_text(&mut store, b"both", b"old", SetOptions::NoExpiry, 0);
    store.restore(
        vec![
            (
                b"both".to_vec(),
                RedisValue { data: RedisValueType::String(b"new".to_vec()), expiry: None },
            ),
            (b"n".to_vec(), RedisValue { data: RedisValueType::Integer(4), expiry: None }),
        ],
        0,
    );
    assert_eq!(text_of(&mut store, b"kept", 0), Some(b"1".to_vec()));
    assert_eq!(text_of(&mut store, b"both", 0), Some(b"new".to_vec()));
    assert_eq!(store.incr(b"n", 0), Ok(5));
    store.restore(Vec::new(), 0);
    assert_eq!(store.snapshot().len(), 3);
}
