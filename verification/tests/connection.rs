use bytes::BytesMut;
use resp_store::command::save_reply;
use resp_store::connection::{drain, drain_at, Drained, Next, MAX_BUFFER_LEN};
use resp_store::store::RedisStore;

fn turn(store: &mut RedisStore, now: u64, input: &[u8]) -> (Vec<u8>, Vec<u8>, Next) {
    let mut buffer = BytesMut::from(input);
    let Drained { output, next } = drain_at(&mut buffer, store, now);
    (output, buffer.to_vec(), next)
}

fn replies(store: &mut RedisStore, input: &[u8]) -> Vec<u8> {
    let (output, rest, next) = turn(store, 1_000, input);
    assert!(matches!(next, Next::NeedMore));
    assert!(rest.is_empty());
    output
}

#[test]
fn scenario_ping() {
    let mut store = RedisStore::new_at(0);
    assert_eq!(replies(&mut store, b"*1\r\n$4\r\nPING\r\n"), b"+PONG\r\n".to_vec());
}

#[test]
fn scenario_set_then_get() {
    let mut store = RedisStore::new_at(0);
    assert_eq!(
        replies(&mut store, b"*3\r\n$3\r\nSET\r\n$1\r\nk\r\n$1\r\nv\r\n"),
        b"+OK\r\n".to_vec()
    );
    assert_eq!(replies(&mut store, b"*2\r\n$3\r\nGET\r\n$1\r\nk\r\n"), b"$1\r\nv\r\n".to_vec());
}

#[test]
fn scenario_incr_twice() {
    let mut store = RedisStore::new_at(0);
    assert_eq!(replies(&mut store, b"*2\r\n$4\r\nINCR\r\n$1\r\nn\r\n"), b":1\r\n".to_vec());
    assert_eq!(replies(&mut store, b"*2\r\n$4\r\nINCR\r\n$1\r\nn\r\n"), b":2\r\n".to_vec());
}

#[test]
fn scenario_incr_on_text() {
    let mut store = RedisStore::new_at(0);
    assert_eq!(
        replies(&mut store, b"*3\r\n$3\r\nSET\r\n$1\r\ns\r\n$5\r\nhello\r\n"),
        b"+OK\r\n".to_vec()
    );
    assert_eq!(
        replies(&mut store, b"*2\r\n$4\r\nINCR\r\n$1\r\ns\r\n"),
        b"-ERR value is not an integer or out of range\r\n".to_vec()
    );
}

#[test]
fn scenario_get_on_a_list() {
    let mut store = RedisStore::new_at(0);
    assert_eq!(
        replies(&mut store, b"*3\r\n$5\r\nRPUSH\r\n$4\r\nlist\r\n$1\r\na\r\n"),
        b":1\r\n".to_vec()
    );
    assert_eq!(
        replies(&mut store, b"*2\r\n$3\r\nGET\r\n$4\r\nlist\r\n"),
        b"-WRONGTYPE Operation against a key holding the wrong kind of value\r\n".to_vec()
    );
}

#[test]
fn scenario_del_missing() {
    let mut store = RedisStore::new_at(0);
    assert_eq!(replies(&mut store, b"*2\r\n$3\r\nDEL\r\n$7\r\nmissing\r\n"), b":0\r\n".to_vec());
}

#[test]
fn requests_in_one_buffer_are_answered_in_order() {
    let mut store = RedisStore::new_at(0);
    let input = b"*2\r\n$4\r\nINCR\r\n$1\r\nn\r\n*1\r\n$4\r\nPING\r\n*2\r\n$4\r\nINCR\r\n$1\r\nn\r\n";
    assert_eq!(replies(&mut store, input), b":1\r\n+PONG\r\n:2\r\n".to_vec());
}

#[test]
fn a_partial_request_stays_in_the_buffer() {
    let mut store = RedisStore::new_at(0);
    let (output, rest, next) = turn(&mut store, 0, b"*1\r\n$4\r\nPING\r\n*2\r\n$3\r\nGET\r\n$1");
    assert_eq!(output, b"+PONG\r\n".to_vec());
    assert_eq!(rest, b"*2\r\n$3\r\nGET\r\n$1".to_vec());
    assert!(matches!(next, Next::NeedMore));

    let (output, rest, next) = turn(&mut store, 0, b"");
    assert!(output.is_empty());
    assert!(rest.is_empty());
    assert!(matches!(next, Next::NeedMore));
}

#[test]
fn a_request_that_arrives_in_pieces_is_answered_once_whole() {
    let mut store = RedisStore::new_at(0);
    let whole = b"*3\r\n$3\r\nSET\r\n$1\r\nk\r\n$1\r\nv\r\n";
    let mut buffer = BytesMut::new();
    for (i, byte) in whole.iter().enumerate() {
        buffer.extend_from_slice(&[*byte]);
        let Drained { output, next } = drain_at(&mut buffer, &mut store, 0);
        assert!(matches!(next, Next::NeedMore));
        if i + 1 < whole.len() {
            assert!(output.is_empty());
            assert_eq!(buffer.len(), i + 1);
        } else {
            assert_eq!(output, b"+OK\r\n".to_vec());
            assert!(buffer.is_empty());
        }
    }
}

#[test]
fn malformed_input_is_answered_and_closes() {
    let cases: Vec<(&[u8], &[u8])> = vec![
        (b"hello\r\n", b"-ERR protocol error: bad prefix\r\n"),
        (b"$x\r\n", b"-ERR protocol error: bad length\r\n"),
        (b":x\r\n", b"-ERR protocol error: truncated integer\r\n"),
        (b"*9999999999\r\n", b"-ERR protocol error: oversize frame\r\n"),
    ];
    for (input, expected) in cases {
        let mut store = RedisStore::new_at(0);
        let (output, rest, next) = turn(&mut store, 0, input);
        assert_eq!(output, expected.to_vec());
        assert_eq!(rest, input.to_vec());
        assert!(matches!(next, Next::Close));
    }
}

#[test]
fn replies_before_malformed_input_are_still_sent() {
    let mut store = RedisStore::new_at(0);
    let (output, _, next) = turn(&mut store, 0, b"*1\r\n$4\r\nPING\r\n!\r\n");
    assert_eq!(output, b"+PONG\r\n-ERR protocol error: bad prefix\r\n".to_vec());
    assert!(matches!(next, Next::Close));
}

#[test]
fn command_errors_leave_the_connection_open() {
    let mut store = RedisStore::new_at(0);
    let input = b"*1\r\n$4\r\nNOPE\r\n*1\r\n$3\r\nGET\r\n:5\r\n*1\r\n$4\r\nPING\r\n";
    assert_eq!(
        replies(&mut store, input),
        b"-ERR unknown command 'NOPE'\r\n-ERR wrong number of arguments for 'get'\r\n-ERR invalid command format\r\n+PONG\r\n"
            .to_vec()
    );
}

#[test]
fn a_buffer_that_grows_past_its_cap_closes_the_connection() {
    let mut store = RedisStore::new_at(0);
    let mut input = b"$536870912\r\n".to_vec();
    input.resize(MAX_BUFFER_LEN - 1, b'x');
    let (output, _, next) = turn(&mut store, 0, &input);
    assert!(output.is_empty());
    assert!(matches!(next, Next::NeedMore));
    input.push(b'x');
    let (output, _, next) = turn(&mut store, 0, &input);
    assert_eq!(output, b"-ERR protocol error: oversize frame\r\n".to_vec());
    assert!(matches!(next, Next::Close));
}

#[test]
fn save_pauses_the_turn() {
    let mut store = RedisStore::new_at(0);
    let input = b"*3\r\n$3\r\nSET\r\n$1\r\na\r\n$1\r\n1\r\n*1\r\n$4\r\nSAVE\r\n*1\r\n$4\r\nPING\r\n";
    let mut buffer = BytesMut::from(&input[..]);
    let Drained { output, next } = drain_at(&mut buffer, &mut store, 0);
    assert_eq!(output, b"+OK\r\n".to_vec());
    assert_eq!(buffer.to_vec(), b"*1\r\n$4\r\nPING\r\n".to_vec());
    match next {
        Next::Save(saved) => {
            assert_eq!(saved.len(), 1);
            assert_eq!(saved[0].0, b"a".to_vec());
        }
        _ => panic!("no snapshot was asked for"),
    }
    assert_eq!(
        resp_store::frame::serialize_resp(&save_reply(Ok(()))),
        b"+OK\r\n".to_vec()
    );
    let Drained { output, next } = drain_at(&mut buffer, &mut store, 0);
    assert_eq!(output, b"+PONG\r\n".to_vec());
    assert!(buffer.is_empty());
    assert!(matches!(next, Next::NeedMore));
}

#[test]
fn drain_reads_the_clock() {
    let mut store = RedisStore::new_at(0);
    let mut buffer = BytesMut::from(
        &b"*5\r\n$3\r\nSET\r\n$1\r\nk\r\n$1\r\nv\r\n$2\r\nEX\r\n$3\r\n100\r\n*2\r\n$3\r\nGET\r\n$1\r\nk\r\n"[..],
    );
    let Drained { output, next } = drain(&mut buffer, &mut store);
    assert_eq!(output, b"+OK\r\n$1\r\nv\r\n".to_vec());
    assert!(matches!(next, Next::NeedMore));
    let expiry = store.get(b"k", 0).unwrap().expiry.unwrap();
    // The deadline lies a hundred seconds after a time of this century.
    assert!(expiry > 1_600_000_000_000 + 100_000);
    let mut late = BytesMut::from(&b"*2\r\n$3\r\nGET\r\n$1\r\nk\r\n"[..]);
    let Drained { output, .. } = drain_at(&mut late, &mut store, expiry);
    assert_eq!(output, b"$-1\r\n".to_vec());
}
