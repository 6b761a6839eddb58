use resp_store::command::{handle_command, lookup_command, save_reply, Action, Command};
use resp_store::frame::RespData;
use resp_store::store::RedisStore;

fn bulk(text: &[u8]) -> RespData {
    RespData::BulkString(text.to_vec())
}

fn request(words: &[&[u8]]) -> RespData {
    RespData::Array(words.iter().map(|word| bulk(word)).collect())
}

fn run_at(store: &mut RedisStore, now: u64, words: &[&[u8]]) -> RespData {
    match handle_command(&request(words), store, now) {
        Action::Reply(frame) => frame,
        Action::Save(_) => panic!("a snapshot was asked for"),
    }
}

fn run(store: &mut RedisStore, words: &[&[u8]]) -> RespData {
    run_at(store, 1_000, words)
}

fn error(text: &str) -> RespData {
    RespData::Error(text.as_bytes().to_vec())
}

fn ok() -> RespData {
    RespData::SimpleString(b"OK".to_vec())
}

const WRONG_TYPE: &str = "WRONGTYPE Operation against a key holding the wrong kind of value";
const NOT_AN_INTEGER: &str = "ERR value is not an integer or out of range";

#[test]
fn lookup_command_ignores_case() {
    assert_eq!(lookup_command(b"PING"), Some(Command::PING));
    assert_eq!(lookup_command(b"ping"), Some(Command::PING));
    assert_eq!(lookup_command(b"PiNg"), Some(Command::PING));
    assert_eq!(lookup_command(b"echo"), Some(Command::ECHO));
    assert_eq!(lookup_command(b"set"), Some(Command::SET));
    assert_eq!(lookup_command(b"get"), Some(Command::GET));
    assert_eq!(lookup_command(b"del"), Some(Command::DEL));
    assert_eq!(lookup_command(b"exists"), Some(Command::EXISTS));
    assert_eq!(lookup_command(b"incr"), Some(Command::INCR));
    assert_eq!(lookup_command(b"decr"), Some(Command::DECR));
    assert_eq!(lookup_command(b"lpush"), Some(Command::LPUSH));
    assert_eq!(lookup_command(b"rpush"), Some(Command::RPUSH));
    assert_eq!(lookup_command(b"save"), Some(Command::SAVE));
    assert_eq!(lookup_command(b"pingg"), None);
    assert_eq!(lookup_command(b""), None);
    assert_eq!(lookup_command(b"p\x49ng "), None);
}

#[test]
fn ping_answers_pong() {
    let mut store = RedisStore::new_at(0);
    assert_eq!(run(&mut store, &[b"PING"]), RespData::SimpleString(b"PONG".to_vec()));
    assert_eq!(run(&mut store, &[b"ping"]), RespData::SimpleString(b"PONG".to_vec()));
}

#[test]
fn echo_answers_its_argument() {
    let mut store = RedisStore::new_at(0);
    assert_eq!(run(&mut store, &[b"ECHO", b"hi\r\nthere"]), bulk(b"hi\r\nthere"));
}

#[test]
fn set_then_get() {
    let mut store = RedisStore::new_at(0);
    assert_eq!(run(&mut store, &[b"SET", b"k", b"v"]), ok());
    assert_eq!(run(&mut store, &[b"GET", b"k"]), bulk(b"v"));
    assert_eq!(run(&mut store, &[b"GET", b"missing"]), RespData::Null);
}

#[test]
fn get_writes_a_counter_as_its_numeral() {
    let mut store = RedisStore::new_at(0);
    assert_eq!(run(&mut store, &[b"DECR", b"n"]), RespData::Integer(-1));
    assert_eq!(run(&mut store, &[b"GET", b"n"]), bulk(b"-1"));
}

#[test]
fn set_with_each_modifier() {
    let mut store = RedisStore::new_at(0);
    assert_eq!(run_at(&mut store, 1_000, &[b"SET", b"a", b"1", b"EX", b"2"]), ok());
    assert_eq!(run_at(&mut store, 1_000, &[b"SET", b"b", b"1", b"px", b"2"]), ok());
    assert_eq!(run_at(&mut store, 1_000, &[b"SET", b"c", b"1", b"ExAt", b"2"]), ok());
    assert_eq!(run_at(&mut store, 1_000, &[b"SET", b"d", b"1", b"PXAT", b"1500"]), ok());
    assert_eq!(store.get(b"a", 1_000).unwrap().expiry, Some(3_000));
    assert_eq!(store.get(b"b", 1_000).unwrap().expiry, Some(1_002));
    assert_eq!(store.get(b"c", 1_000).unwrap().expiry, Some(2_000));
    assert_eq!(store.get(b"d", 1_000).unwrap().expiry, Some(1_500));
}

#[test]
fn a_key_set_with_px_expires() {
    let mut store = RedisStore::new_at(0);
    assert_eq!(run_at(&mut store, 1_000, &[b"SET", b"k", b"v", b"PX", b"50"]), ok());
    assert_eq!(run_at(&mut store, 1_030, &[b"GET", b"k"]), bulk(b"v"));
    assert_eq!(run_at(&mut store, 1_030, &[b"EXISTS", b"k"]), RespData::Integer(1));
    assert_eq!(run_at(&mut store, 1_100, &[b"EXISTS", b"k"]), RespData::Integer(0));
    assert_eq!(run_at(&mut store, 1_100, &[b"GET", b"k"]), RespData::Null);
}

#[test]
fn set_without_ttl_clears_the_deadline() {
    let mut store = RedisStore::new_at(0);
    assert_eq!(run_at(&mut store, 1_000, &[b"SET", b"k", b"v", b"PX", b"50"]), ok());
    assert_eq!(run_at(&mut store, 1_010, &[b"SET", b"k", b"w"]), ok());
    assert_eq!(run_at(&mut store, 9_999, &[b"GET", b"k"]), bulk(b"w"));
}

#[test]
fn set_with_ex_zero_leaves_the_key_absent() {
    let mut store = RedisStore::new_at(0);
    assert_eq!(run(&mut store, &[b"SET", b"k", b"old"]), ok());
    assert_eq!(run(&mut store, &[b"SET", b"k", b"v", b"EX", b"0"]), ok());
    assert_eq!(run(&mut store, &[b"GET", b"k"]), RespData::Null);
    assert_eq!(run(&mut store, &[b"SET", b"k", b"v", b"PX", b"-5"]), ok());
    assert_eq!(run(&mut store, &[b"EXISTS", b"k"]), RespData::Integer(0));
}

#[test]
fn set_refuses_bad_modifiers() {
    let mut store = RedisStore::new_at(0);
    let syntax = error("ERR syntax error");
    assert_eq!(run(&mut store, &[b"SET", b"k", b"v", b"EX"]), syntax);
    assert_eq!(run(&mut store, &[b"SET", b"k", b"v", b"XX", b"1"]), syntax);
    assert_eq!(run(&mut store, &[b"SET", b"k", b"v", b"EX", b"1", b"PX", b"1"]), syntax);
    assert_eq!(run(&mut store, &[b"SET", b"k", b"v", b"EX", b"1", b"EX", b"1"]), syntax);
    assert_eq!(run(&mut store, &[b"SET", b"k", b"v", b"EX", b"1", b"junk"]), syntax);
    assert_eq!(run(&mut store, &[b"SET", b"k", b"v", b"XX", b"abc"]), syntax);
    assert_eq!(run(&mut store, &[b"SET", b"k", b"v", b"EX", b"abc"]), error(NOT_AN_INTEGER));
    assert_eq!(run(&mut store, &[b"SET", b"k", b"v", b"PX", b""]), error(NOT_AN_INTEGER));
    assert_eq!(
        run(&mut store, &[b"SET", b"k", b"v", b"PX", b"9223372036854775808"]),
        error(NOT_AN_INTEGER)
    );
    assert_eq!(run(&mut store, &[b"GET", b"k"]), RespData::Null);
}

#[test]
fn del_counts_removed_keys() {
    let mut store = RedisStore::new_at(0);
    assert_eq!(run(&mut store, &[b"DEL", b"missing"]), RespData::Integer(0));
    assert_eq!(run(&mut store, &[b"SET", b"a", b"1"]), ok());
    assert_eq!(run(&mut store, &[b"SET", b"b", b"1"]), ok());
    assert_eq!(run(&mut store, &[b"DEL", b"a", b"x", b"b", b"a"]), RespData::Integer(2));
    assert_eq!(run(&mut store, &[b"GET", b"a"]), RespData::Null);
}

#[test]
fn del_does_not_count_an_expired_key() {
    let mut store = RedisStore::new_at(0);
    assert_eq!(run_at(&mut store, 1_000, &[b"SET", b"k", b"v", b"PX", b"50"]), ok());
    assert_eq!(run_at(&mut store, 2_000, &[b"DEL", b"k"]), RespData::Integer(0));
}

#[test]
fn exists_counts_one_per_existing_key() {
    let mut store = RedisStore::new_at(0);
    assert_eq!(run(&mut store, &[b"SET", b"a", b"1"]), ok());
    assert_eq!(run(&mut store, &[b"RPUSH", b"l", b"x"]), RespData::Integer(1));
    assert_eq!(run(&mut store, &[b"EXISTS", b"a"]), RespData::Integer(1));
    assert_eq!(run(&mut store, &[b"EXISTS", b"nope"]), RespData::Integer(0));
    assert_eq!(run(&mut store, &[b"EXISTS", b"a", b"nope", b"l", b"a"]), RespData::Integer(3));
}

#[test]
fn incr_and_decr() {
    let mut store = RedisStore::new_at(0);
    assert_eq!(run(&mut store, &[b"INCR", b"n"]), RespData::Integer(1));
    assert_eq!(run(&mut store, &[b"INCR", b"n"]), RespData::Integer(2));
    assert_eq!(run(&mut store, &[b"DECR", b"n"]), RespData::Integer(1));
    assert_eq!(run(&mut store, &[b"DECR", b"fresh"]), RespData::Integer(-1));
    assert_eq!(run(&mut store, &[b"SET", b"t", b"10"]), ok());
    assert_eq!(run(&mut store, &[b"INCR", b"t"]), RespData::Integer(11));
}

#[test]
fn incr_on_text_that_is_no_number() {
    let mut store = RedisStore::new_at(0);
    assert_eq!(run(&mut store, &[b"SET", b"s", b"hello"]), ok());
    assert_eq!(run(&mut store, &[b"INCR", b"s"]), error(NOT_AN_INTEGER));
    assert_eq!(run(&mut store, &[b"DECR", b"s"]), error(NOT_AN_INTEGER));
    assert_eq!(run(&mut store, &[b"GET", b"s"]), bulk(b"hello"));
}

#[test]
fn incr_on_overflow() {
    let mut store = RedisStore::new_at(0);
    assert_eq!(run(&mut store, &[b"SET", b"n", b"9223372036854775807"]), ok());
    assert_eq!(
        run(&mut store, &[b"INCR", b"n"]),
        error("ERR increment or decrement would overflow")
    );
    assert_eq!(run(&mut store, &[b"GET", b"n"]), bulk(b"9223372036854775807"));
    assert_eq!(run(&mut store, &[b"SET", b"m", b"-9223372036854775808"]), ok());
    assert_eq!(
        run(&mut store, &[b"DECR", b"m"]),
        error("ERR increment or decrement would overflow")
    );
}

#[test]
fn operations_on_the_wrong_shape() {
    let mut store = RedisStore::new_at(0);
    assert_eq!(run(&mut store, &[b"RPUSH", b"list", b"a"]), RespData::Integer(1));
    assert_eq!(run(&mut store, &[b"GET", b"list"]), error(WRONG_TYPE));
    assert_eq!(run(&mut store, &[b"INCR", b"list"]), error(WRONG_TYPE));
    assert_eq!(run(&mut store, &[b"SET", b"s", b"v"]), ok());
    assert_eq!(run(&mut store, &[b"LPUSH", b"s", b"a"]), error(WRONG_TYPE));
    assert_eq!(run(&mut store, &[b"RPUSH", b"s", b"a"]), error(WRONG_TYPE));
    assert_eq!(run(&mut store, &[b"INCR", b"n"]), RespData::Integer(1));
    assert_eq!(run(&mut store, &[b"RPUSH", b"n", b"a"]), error(WRONG_TYPE));
    assert_eq!(run(&mut store, &[b"GET", b"s"]), bulk(b"v"));
}

#[test]
fn pushes_report_the_new_length_and_keep_order() {
    let mut store = RedisStore::new_at(0);
    assert_eq!(run(&mut store, &[b"RPUSH", b"l", b"a", b"b", b"c"]), RespData::Integer(3));
    assert_eq!(run(&mut store, &[b"LPUSH", b"l", b"x", b"y"]), RespData::Integer(5));
    let list: Vec<Vec<u8>> = match store.get(b"l", 1_000).unwrap().data {
        resp_store::store::RedisValueType::List(items) => items.into_iter().collect(),
        other => panic!("not a list: {:?}", other),
    };
    let expected: Vec<Vec<u8>> =
        vec![b"y".to_vec(), b"x".to_vec(), b"a".to_vec(), b"b".to_vec(), b"c".to_vec()];
    assert_eq!(list, expected);
}

#[test]
fn wrong_number_of_arguments() {
    let mut store = RedisStore::new_at(0);
    let cases: Vec<(Vec<&[u8]>, &str)> = vec![
        (vec![b"PING", b"x"], "ping"),
        (vec![b"ECHO"], "echo"),
        (vec![b"ECHO", b"a", b"b"], "echo"),
        (vec![b"SET"], "set"),
        (vec![b"SET", b"k"], "set"),
        (vec![b"GET"], "get"),
        (vec![b"GET", b"a", b"b"], "get"),
        (vec![b"DEL"], "del"),
        (vec![b"EXISTS"], "exists"),
        (vec![b"INCR"], "incr"),
        (vec![b"INCR", b"a", b"b"], "incr"),
        (vec![b"DECR"], "decr"),
        (vec![b"LPUSH", b"l"], "lpush"),
        (vec![b"RPUSH"], "rpush"),
        (vec![b"rpush", b"l"], "rpush"),
        (vec![b"SAVE", b"now"], "save"),
    ];
    for (words, name) in cases {
        assert_eq!(
            run(&mut store, &words),
            error(&format!("ERR wrong number of arguments for '{}'", name))
        );
    }
}

#[test]
fn unknown_commands_are_named_in_the_reply() {
    let mut store = RedisStore::new_at(0);
    assert_eq!(run(&mut store, &[b"FLUSHALL"]), error("ERR unknown command 'FLUSHALL'"));
    assert_eq!(run(&mut store, &[b"nope", b"a"]), error("ERR unknown command 'nope'"));
    assert_eq!(run(&mut store, &[b""]), error("ERR unknown command ''"));
    assert_eq!(run(&mut store, &[b"a\r\nb"]), error("ERR unknown command 'a  b'"));
}

#[test]
fn requests_of_another_shape_are_refused() {
    let mut store = RedisStore::new_at(0);
    let invalid = error("ERR invalid command format");
    let shapes = vec![
        RespData::Null,
        RespData::Integer(1),
        RespData::SimpleString(b"PING".to_vec()),
        bulk(b"PING"),
        RespData::Array(Vec::new()),
        RespData::Array(vec![RespData::Integer(1)]),
        RespData::Array(vec![RespData::SimpleString(b"PING".to_vec())]),
        RespData::Array(vec![RespData::Array(vec![bulk(b"PING")])]),
    ];
    for shape in shapes {
        match handle_command(&shape, &mut store, 0) {
            Action::Reply(frame) => assert_eq!(frame, invalid),
            Action::Save(_) => panic!("a snapshot was asked for"),
        }
    }
}

#[test]
fn arguments_that_are_no_bulk_strings_are_refused() {
    let mut store = RedisStore::new_at(0);
    let syntax = error("ERR syntax error");
    let get = RespData::Array(vec![bulk(b"GET"), RespData::Integer(1)]);
    let set = RespData::Array(vec![bulk(b"SET"), bulk(b"k"), RespData::SimpleString(b"v".to_vec())]);
    let del = RespData::Array(vec![bulk(b"DEL"), bulk(b"k"), RespData::Null]);
    for shape in [get, set, del] {
        match handle_command(&shape, &mut store, 0) {
            Action::Reply(frame) => assert_eq!(frame, syntax),
            Action::Save(_) => panic!("a snapshot was asked for"),
        }
    }
    let arity_first = RespData::Array(vec![bulk(b"GET"), RespData::Integer(1), bulk(b"x")]);
    match handle_command(&arity_first, &mut store, 0) {
        Action::Reply(frame) => {
            assert_eq!(frame, error("ERR wrong number of arguments for 'get'"))
        }
        Action::Save(_) => panic!("a snapshot was asked for"),
    }
}

#[test]
fn save_hands_out_the_keyspace() {
    let mut store = RedisStore::new_at(0);
    assert_eq!(run(&mut store, &[b"SET", b"a", b"1"]), ok());
    assert_eq!(run_at(&mut store, 1_000, &[b"SET", b"b", b"2", b"EX", b"3600"]), ok());
    match handle_command(&request(&[b"SAVE"]), &mut store, 1_000) {
        Action::Save(mut saved) => {
            saved.sort_by(|x, y| x.0.cmp(&y.0));
            assert_eq!(saved.len(), 2);
            assert_eq!(saved[0].0, b"a".to_vec());
            assert_eq!(saved[1].0, b"b".to_vec());
            assert_eq!(saved[1].1.expiry, Some(3_601_000));
        }
        Action::Reply(frame) => panic!("unexpected reply {:?}", frame),
    }
}

#[test]
fn save_reply_tells_how_the_snapshot_went() {
    assert_eq!(save_reply(Ok(())), ok());
    assert_eq!(save_reply(Err(b"disk full".to_vec())), error("ERR disk full"));
    assert_eq!(save_reply(Err(b"two\r\nlines".to_vec())), error("ERR two  lines"));
}
