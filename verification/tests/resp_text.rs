use resp_store::resp::{deserialize, serialize, RespType};
use std::iter::Peekable;
use std::str::Chars;

fn to_peekable(input: &str) -> Peekable<Chars> {
    input.chars().peekable()
}

#[test]
fn test_simple_string() {
    let mut chars = to_peekable("+OK\r\n");
    assert_eq!(deserialize(&mut chars).unwrap(), RespType::SimpleString("OK".into()));
}

#[test]
fn test_error() {
    let mut chars = to_peekable("-Error message\r\n");
    assert_eq!(deserialize(&mut chars).unwrap(), RespType::Error("Error message".into()));
}

#[test]
fn test_integer() {
    let mut chars = to_peekable(":1000\r\n");
    assert_eq!(deserialize(&mut chars).unwrap(), RespType::Integer(1000));
}

#[test]
fn test_bulk_string() {
    let mut chars = to_peekable("$6\r\nfoobar\r\n");
    assert_eq!(deserialize(&mut chars).unwrap(), RespType::BulkString("foobar".into()));
}

#[test]
fn test_null_bulk_string() {
    let mut chars = to_peekable("$-1\r\n");
    assert_eq!(deserialize(&mut chars).unwrap(), RespType::Null);
}

#[test]
fn test_array() {
    let mut chars = to_peekable("*2\r\n$3\r\nget\r\n$3\r\nkey\r\n");
    assert_eq!(
        deserialize(&mut chars).unwrap(),
        RespType::Array(vec![
            RespType::BulkString("get".into()),
            RespType::BulkString("key".into())
        ])
    );
}

#[test]
fn test_null_array() {
    let mut chars = to_peekable("*-1\r\n");
    assert_eq!(deserialize(&mut chars).unwrap(), RespType::Null);
}

#[test]
fn test_invalid_input() {
    let mut chars = to_peekable("invalid");
    assert!(deserialize(&mut chars).is_err());
}

#[test]
fn deserialize_leaves_the_stream_behind_the_frame() {
    let mut chars = to_peekable("+OK\r\n:7\r\nrest");
    assert_eq!(deserialize(&mut chars).unwrap(), RespType::SimpleString("OK".into()));
    assert_eq!(deserialize(&mut chars).unwrap(), RespType::Integer(7));
    let left: String = chars.collect();
    assert_eq!(left, "rest");
}

#[test]
fn deserialize_reports_each_error_by_its_message() {
    assert_eq!(deserialize(&mut to_peekable("")).unwrap_err(), "Unexpected end of input");
    assert_eq!(deserialize(&mut to_peekable("?x\r\n")).unwrap_err(), "Invalid RESP format");
    assert_eq!(deserialize(&mut to_peekable(":12a\r\n")).unwrap_err(), "Invalid integer");
    assert_eq!(deserialize(&mut to_peekable(":\r\n")).unwrap_err(), "Invalid integer");
    assert_eq!(
        deserialize(&mut to_peekable(":9223372036854775808\r\n")).unwrap_err(),
        "Invalid integer"
    );
    assert_eq!(
        deserialize(&mut to_peekable("$x\r\nabc\r\n")).unwrap_err(),
        "Invalid bulk string length"
    );
    assert_eq!(
        deserialize(&mut to_peekable("$-2\r\n")).unwrap_err(),
        "Invalid bulk string length"
    );
    assert_eq!(
        deserialize(&mut to_peekable("$536870913\r\n")).unwrap_err(),
        "Invalid bulk string length"
    );
    assert_eq!(deserialize(&mut to_peekable("$5\r\nabc")).unwrap_err(), "Unexpected end of input");
    assert_eq!(deserialize(&mut to_peekable("+OK")).unwrap_err(), "Unexpected end of input");
    assert_eq!(deserialize(&mut to_peekable("+O\rK\r\n")).unwrap_err(), "Invalid line ending");
    assert_eq!(deserialize(&mut to_peekable("+OK\r")).unwrap_err(), "Unexpected end of input");
    assert_eq!(deserialize(&mut to_peekable("+OK\rX")).unwrap_err(), "Invalid line ending");
    assert_eq!(deserialize(&mut to_peekable("$3\r\nabcd\r\n")).unwrap_err(), "Expected CRLF");
    assert_eq!(deserialize(&mut to_peekable("$3\r\nabc")).unwrap_err(), "Unexpected end of input");
    assert_eq!(deserialize(&mut to_peekable("$3\r\nabc\r")).unwrap_err(), "Unexpected end of input");
    assert_eq!(deserialize(&mut to_peekable("$3\r\nabc\rX")).unwrap_err(), "Expected CRLF");
    assert_eq!(deserialize(&mut to_peekable("*x\r\n")).unwrap_err(), "Invalid array length");
    assert_eq!(deserialize(&mut to_peekable("*-3\r\n")).unwrap_err(), "Invalid array length");
    assert_eq!(
        deserialize(&mut to_peekable("*1048577\r\n")).unwrap_err(),
        "Invalid array length"
    );
    assert_eq!(
        deserialize(&mut to_peekable("*2\r\n:1\r\n")).unwrap_err(),
        "Unexpected end of input"
    );
    assert_eq!(
        deserialize(&mut to_peekable("*2\r\n:1\r\n?")).unwrap_err(),
        "Invalid RESP format"
    );
}

#[test]
fn deserialize_counts_a_bulk_length_in_bytes() {
    // The euro sign takes three bytes.
    let mut chars = to_peekable("$4\r\n\u{20ac}x\r\n");
    assert_eq!(deserialize(&mut chars).unwrap(), RespType::BulkString("\u{20ac}x".into()));
    let mut split = to_peekable("$2\r\n\u{20ac}\r\n");
    assert_eq!(deserialize(&mut split).unwrap_err(), "Invalid bulk string length");
}

#[test]
fn deserialize_reads_signed_integers_and_empty_payloads() {
    assert_eq!(deserialize(&mut to_peekable(":-42\r\n")).unwrap(), RespType::Integer(-42));
    assert_eq!(deserialize(&mut to_peekable(":+42\r\n")).unwrap(), RespType::Integer(42));
    assert_eq!(
        deserialize(&mut to_peekable(":-9223372036854775808\r\n")).unwrap(),
        RespType::Integer(i64::MIN)
    );
    assert_eq!(deserialize(&mut to_peekable("$0\r\n\r\n")).unwrap(), RespType::BulkString("".into()));
    assert_eq!(deserialize(&mut to_peekable("*0\r\n")).unwrap(), RespType::Array(vec![]));
    assert_eq!(deserialize(&mut to_peekable("+\r\n")).unwrap(), RespType::SimpleString("".into()));
}

#[test]
fn serialize_writes_each_variant() {
    assert_eq!(serialize(&RespType::SimpleString("OK".into())).unwrap(), "+OK\r\n");
    assert_eq!(serialize(&RespType::Error("ERR x".into())).unwrap(), "-ERR x\r\n");
    assert_eq!(serialize(&RespType::Integer(-17)).unwrap(), ":-17\r\n");
    assert_eq!(serialize(&RespType::Integer(0)).unwrap(), ":0\r\n");
    assert_eq!(
        serialize(&RespType::Integer(i64::MIN)).unwrap(),
        ":-9223372036854775808\r\n"
    );
    assert_eq!(serialize(&RespType::BulkString("foobar".into())).unwrap(), "$6\r\nfoobar\r\n");
    assert_eq!(serialize(&RespType::BulkString("\u{20ac}".into())).unwrap(), "$3\r\n\u{20ac}\r\n");
    assert_eq!(serialize(&RespType::Null).unwrap(), "$-1\r\n");
    assert_eq!(
        serialize(&RespType::Array(vec![
            RespType::BulkString("get".into()),
            RespType::Array(vec![RespType::Integer(1), RespType::Null]),
        ]))
        .unwrap(),
        "*2\r\n$3\r\nget\r\n*2\r\n:1\r\n$-1\r\n"
    );
}

#[test]
fn text_form_round_trips() {
    let frames = vec![
        RespType::SimpleString("hello".into()),
        RespType::Error("ERR nope".into()),
        RespType::Integer(123456789),
        RespType::BulkString("with\nline feed and \u{e9}".into()),
        RespType::Null,
        RespType::Array(vec![
            RespType::Array(vec![RespType::Array(vec![RespType::BulkString("deep".into())])]),
            RespType::Integer(-1),
        ]),
    ];
    for frame in frames {
        let text = serialize(&frame).unwrap();
        let mut chars = to_peekable(&text);
        assert_eq!(deserialize(&mut chars).unwrap(), frame);
        assert_eq!(chars.next(), None);
    }
}

fn failure_and_rest(input: &str) -> (String, String) {
    let mut chars = to_peekable(input);
    let message = deserialize(&mut chars).unwrap_err();
    (message, chars.collect())
}

#[test]
fn a_stream_without_a_tag_is_left_as_it_is() {
    assert_eq!(
        failure_and_rest("invalid"),
        ("Invalid RESP format".to_string(), "invalid".to_string())
    );
    assert_eq!(
        failure_and_rest("?+OK\r\n"),
        ("Invalid RESP format".to_string(), "?+OK\r\n".to_string())
    );
}

#[test]
fn after_a_failure_the_stream_stands_where_the_reader_gave_up() {
    let cases = vec![
        ("+OK", "Unexpected end of input", ""),
        ("+O\rK\r\n", "Invalid line ending", "\r\n"),
        ("+OK\r", "Unexpected end of input", ""),
        ("+OK\rX\r\n", "Invalid line ending", "\r\n"),
        (":12a\r\nrest", "Invalid integer", "rest"),
        ("$x\r\nabc", "Invalid bulk string length", "abc"),
        ("$2\r\n\u{20ac}\r\n", "Invalid bulk string length", "\r\n"),
        ("$5\r\nabc", "Unexpected end of input", ""),
        ("$3\r\nabcd\r\n", "Expected CRLF", "\r\n"),
        ("$3\r\nabc\rX!", "Expected CRLF", "!"),
        ("$3\r\nabc\r", "Unexpected end of input", ""),
        ("$3\r\nabc", "Unexpected end of input", ""),
        ("", "Unexpected end of input", ""),
        ("*2\r\n:1\r\n", "Unexpected end of input", ""),
        ("*x\r\n:1\r\n", "Invalid array length", ":1\r\n"),
        ("*2\r\n:1\r\n?x", "Invalid RESP format", "?x"),
        ("*2\r\n:1\r\n:z\r\nrest", "Invalid integer", "rest"),
        ("*1\r\n*1\r\n$1\r\nab\r\n", "Expected CRLF", "\r\n"),
    ];
    for (input, message, rest) in cases {
        assert_eq!(
            failure_and_rest(input),
            (message.to_string(), rest.to_string()),
            "input {:?}",
            input
        );
    }
}

fn sample_text_frames() -> Vec<RespType> {
    vec![
        RespType::SimpleString("OK".into()),
        RespType::SimpleString("".into()),
        RespType::Error("ERR nope".into()),
        RespType::Integer(12),
        RespType::Integer(i64::MIN),
        RespType::BulkString("".into()),
        RespType::BulkString("with\r\nbreaks and \u{20ac}".into()),
        RespType::Null,
        RespType::Array(vec![]),
        RespType::Array(vec![
            RespType::BulkString("get".into()),
            RespType::Array(vec![RespType::Integer(-1), RespType::Null]),
            RespType::SimpleString("deep".into()),
        ]),
    ]
}

#[test]
fn every_proper_prefix_of_a_text_frame_is_an_unexpected_end() {
    for frame in sample_text_frames() {
        let text = serialize(&frame).unwrap();
        let chars: Vec<char> = text.chars().collect();
        for cut in 0..chars.len() {
            let part: String = chars[..cut].iter().collect();
            assert_eq!(
                failure_and_rest(&part),
                ("Unexpected end of input".to_string(), "".to_string()),
                "cut {} of {:?}",
                cut,
                text
            );
        }
        let mut whole = to_peekable(&text);
        assert_eq!(deserialize(&mut whole).unwrap(), frame);
    }
}

#[test]
fn a_cut_frame_and_a_malformed_one_give_different_errors() {
    assert_eq!(deserialize(&mut to_peekable("+OK")).unwrap_err(), "Unexpected end of input");
    assert_eq!(deserialize(&mut to_peekable(":12")).unwrap_err(), "Unexpected end of input");
    assert_eq!(deserialize(&mut to_peekable("+OK\r")).unwrap_err(), "Unexpected end of input");
    assert_eq!(deserialize(&mut to_peekable("+OK\rX")).unwrap_err(), "Invalid line ending");
    assert_eq!(deserialize(&mut to_peekable("")).unwrap_err(), "Unexpected end of input");
    assert_eq!(deserialize(&mut to_peekable("x")).unwrap_err(), "Invalid RESP format");
    assert_eq!(deserialize(&mut to_peekable("$1\r\na")).unwrap_err(), "Unexpected end of input");
    assert_eq!(deserialize(&mut to_peekable("$1\r\nab")).unwrap_err(), "Expected CRLF");
    assert_eq!(deserialize(&mut to_peekable("*1\r\n")).unwrap_err(), "Unexpected end of input");
    assert_eq!(deserialize(&mut to_peekable("*1\r\n!")).unwrap_err(), "Invalid RESP format");
}
