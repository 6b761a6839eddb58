//! The command dispatcher: from a request frame and the keyspace to a
//! reply frame and the keyspace after it.

use crate::decimal::{decimal_text, format_i64, i64_of_decimal, parse_i64};
use crate::frame::{
    copy_bytes, frames_view, lemma_view_of_array, push_bytes, Frame, RespData, CR, LF,
};
use crate::store::{
    after_counter, after_push, counter_result, deadline, list_view, lists_all, live_count, lookup,
    present_count, purge, push_result, swept, with_entries, RedisStore, RedisValue, RedisValueType,
    SetOptions, Shape, StoreError, StoredValue,
};
use vstd::prelude::*;
use vstd::slice::slice_to_vec;
use vstd::string::StringSliceAdditionalSpecFns;

verus! {

/// The commands that the dispatcher knows.
#[derive(Clone, Copy, Debug, PartialEq, Eq, Structural)]
pub enum Command {
    PING,
    ECHO,
    SET,
    GET,
    DEL,
    EXISTS,
    INCR,
    DECR,
    LPUSH,
    RPUSH,
    SAVE,
}

/// What the caller owes the client after a command.
pub enum Effect {
    /// This frame goes to the client.
    Reply(Frame),
    /// A snapshot of the keyspace is to be written, and the client hears
    /// how that went.
    Save,
}

/// A command's effect, and the entries it leaves behind.
pub struct Outcome {
    pub effect: Effect,
    pub entries: Map<Seq<u8>, StoredValue>,
}

/// What `handle_command` hands to its caller.
pub enum Action {
    /// Send this frame.
    Reply(RespData),
    /// Write these entries, the whole keyspace as the command found it, to
    /// the snapshot file, then send what `save_reply` makes of the result.
    Save(Vec<(Vec<u8>, RedisValue)>),
}

impl View for Action {
    type V = Effect;

    open spec fn view(&self) -> Effect {
        match self {
            Action::Reply(frame) => Effect::Reply(frame@),
            Action::Save(_) => Effect::Save,
        }
    }
}

pub open spec fn upper_byte(b: u8) -> u8 {
    if 97 <= b <= 122 {
        (b - 32) as u8
    } else {
        b
    }
}

/// `s` with its ASCII letters in upper case.
pub open spec fn to_upper(s: Seq<u8>) -> Seq<u8> {
    Seq::new(s.len(), |i: int| upper_byte(s[i]))
}

/// `s` with a space in place of each carriage return and line feed, so
/// that it can stand in a line of text.
pub open spec fn sanitized(s: Seq<u8>) -> Seq<u8> {
    Seq::new(
        s.len(),
        |i: int|
            if s[i] == CR || s[i] == LF {
                32u8
            } else {
                s[i]
            },
    )
}

/// The command that a name stands for, in any mix of upper and lower case.
pub open spec fn command_named(name: Seq<u8>) -> Option<Command> {
    let upper = to_upper(name);
    if upper == "PING".spec_bytes() {
        Some(Command::PING)
    } else if upper == "ECHO".spec_bytes() {
        Some(Command::ECHO)
    } else if upper == "SET".spec_bytes() {
        Some(Command::SET)
    } else if upper == "GET".spec_bytes() {
        Some(Command::GET)
    } else if upper == "DEL".spec_bytes() {
        Some(Command::DEL)
    } else if upper == "EXISTS".spec_bytes() {
        Some(Command::EXISTS)
    } else if upper == "INCR".spec_bytes() {
        Some(Command::INCR)
    } else if upper == "DECR".spec_bytes() {
        Some(Command::DECR)
    } else if upper == "LPUSH".spec_bytes() {
        Some(Command::LPUSH)
    } else if upper == "RPUSH".spec_bytes() {
        Some(Command::RPUSH)
    } else if upper == "SAVE".spec_bytes() {
        Some(Command::SAVE)
    } else {
        None
    }
}

/// The name of a command as error messages quote it.
pub open spec fn command_word(command: Command) -> Seq<u8> {
    match command {
        Command::PING => "ping".spec_bytes(),
        Command::ECHO => "echo".spec_bytes(),
        Command::SET => "set".spec_bytes(),
        Command::GET => "get".spec_bytes(),
        Command::DEL => "del".spec_bytes(),
        Command::EXISTS => "exists".spec_bytes(),
        Command::INCR => "incr".spec_bytes(),
        Command::DECR => "decr".spec_bytes(),
        Command::LPUSH => "lpush".spec_bytes(),
        Command::RPUSH => "rpush".spec_bytes(),
        Command::SAVE => "save".spec_bytes(),
    }
}

/// Whether a request of `len` elements, the command's name among them, has
/// a number of elements that the command takes.
pub open spec fn arity_ok(command: Command, len: int) -> bool {
    match command {
        Command::PING => len == 1,
        Command::ECHO => len == 2,
        Command::SET => len >= 3,
        Command::GET => len == 2,
        Command::DEL => len >= 2,
        Command::EXISTS => len >= 2,
        Command::INCR => len == 2,
        Command::DECR => len == 2,
        Command::LPUSH => len >= 3,
        Command::RPUSH => len >= 3,
        Command::SAVE => len == 1,
    }
}

pub open spec fn wrong_arity_text(command: Command) -> Seq<u8> {
    "ERR wrong number of arguments for '".spec_bytes() + command_word(command) + "'".spec_bytes()
}

pub open spec fn unknown_command_text(name: Seq<u8>) -> Seq<u8> {
    "ERR unknown command '".spec_bytes() + sanitized(name) + "'".spec_bytes()
}

pub open spec fn store_error_text(e: StoreError) -> Seq<u8> {
    match e {
        StoreError::NotAnInteger => "ERR value is not an integer or out of range".spec_bytes(),
        StoreError::Overflow => "ERR increment or decrement would overflow".spec_bytes(),
        StoreError::WrongType => "WRONGTYPE Operation against a key holding the wrong kind of value"
            .spec_bytes(),
    }
}

pub open spec fn all_bulk(items: Seq<Frame>) -> bool {
    forall|i: int| 0 <= i < items.len() ==> #[trigger] items[i] is BulkString
}

/// The payloads of the elements of `items` from `start` on.
pub open spec fn payloads_from(items: Seq<Frame>, start: int) -> Seq<Seq<u8>> {
    Seq::new((items.len() - start) as nat, |i: int| items[start + i]->BulkString_0)
}

/// A count as a reply can carry it: the largest 64-bit integer stands for
/// itself and for anything above it.
pub open spec fn count_value(n: nat) -> int {
    if n > i64::MAX {
        i64::MAX as int
    } else {
        n as int
    }
}

pub open spec fn reply(frame: Frame, entries: Map<Seq<u8>, StoredValue>) -> Outcome {
    Outcome { effect: Effect::Reply(frame), entries }
}

pub open spec fn error_reply(text: Seq<u8>, entries: Map<Seq<u8>, StoredValue>) -> Outcome {
    Outcome { effect: Effect::Reply(Frame::Error(text)), entries }
}

/// The deadline that the modifier `word` with the argument `amount` asks for.
pub open spec fn set_options(word: Seq<u8>, amount: Seq<u8>) -> Result<SetOptions, Seq<u8>> {
    let upper = to_upper(word);
    if upper != "EX".spec_bytes() && upper != "PX".spec_bytes() && upper != "EXAT".spec_bytes()
        && upper != "PXAT".spec_bytes() {
        Err("ERR syntax error".spec_bytes())
    } else {
        match i64_of_decimal(amount) {
            None => Err("ERR value is not an integer or out of range".spec_bytes()),
            Some(n) => if upper == "EX".spec_bytes() {
                Ok(SetOptions::EX(n))
            } else if upper == "PX".spec_bytes() {
                Ok(SetOptions::PX(n))
            } else if upper == "EXAT".spec_bytes() {
                Ok(SetOptions::EXAT(n))
            } else {
                Ok(SetOptions::PXAT(n))
            },
        }
    }
}

/// `SET key value [EX|PX|EXAT|PXAT n]`: one modifier at most.
pub open spec fn run_set(items: Seq<Frame>, entries: Map<Seq<u8>, StoredValue>, now: u64) -> Outcome {
    let key = items[1]->BulkString_0;
    let value = items[2]->BulkString_0;
    if items.len() == 3 {
        reply(
            Frame::SimpleString("OK".spec_bytes()),
            entries.insert(key, StoredValue { shape: Shape::Text(value), expires_at: None }),
        )
    } else if items.len() == 5 {
        match set_options(items[3]->BulkString_0, items[4]->BulkString_0) {
            Err(text) => error_reply(text, entries),
            Ok(options) => reply(
                Frame::SimpleString("OK".spec_bytes()),
                entries.insert(
                    key,
                    StoredValue { shape: Shape::Text(value), expires_at: deadline(options, now) },
                ),
            ),
        }
    } else {
        error_reply("ERR syntax error".spec_bytes(), entries)
    }
}

/// `GET key`: text as it is, a counter as its decimal numeral.
pub open spec fn run_get(items: Seq<Frame>, entries: Map<Seq<u8>, StoredValue>, now: u64) -> Outcome {
    let key = items[1]->BulkString_0;
    let after = purge(entries, key, now);
    match lookup(entries, key, now) {
        None => reply(Frame::Null, after),
        Some(v) => match v.shape {
            Shape::Text(text) => reply(Frame::BulkString(text), after),
            Shape::Counter(n) => reply(Frame::BulkString(decimal_text(n as int)), after),
            Shape::List(_) => error_reply(store_error_text(StoreError::WrongType), after),
        },
    }
}

/// `INCR key` and `DECR key`.
pub open spec fn run_counter(
    items: Seq<Frame>,
    delta: int,
    entries: Map<Seq<u8>, StoredValue>,
    now: u64,
) -> Outcome {
    let key = items[1]->BulkString_0;
    let after = after_counter(entries, key, delta, now);
    match counter_result(lookup(entries, key, now), delta) {
        Ok(n) => reply(Frame::Integer(n as int), after),
        Err(e) => error_reply(store_error_text(e), after),
    }
}

/// `LPUSH key value...` and `RPUSH key value...`.
pub open spec fn run_push(
    items: Seq<Frame>,
    front: bool,
    entries: Map<Seq<u8>, StoredValue>,
    now: u64,
) -> Outcome {
    let key = items[1]->BulkString_0;
    let values = payloads_from(items, 2);
    let after = after_push(entries, key, values, front, now);
    match push_result(lookup(entries, key, now), values, front) {
        Ok(n) => reply(Frame::Integer(count_value(n)), after),
        Err(e) => error_reply(store_error_text(e), after),
    }
}

/// What a well-formed call of `command` does: `items` holds the command's
/// name and its arguments, bulk strings all, in a number that the command
/// takes.
pub open spec fn run(
    command: Command,
    items: Seq<Frame>,
    entries: Map<Seq<u8>, StoredValue>,
    now: u64,
) -> Outcome {
    match command {
        Command::PING => reply(Frame::SimpleString("PONG".spec_bytes()), entries),
        Command::ECHO => reply(Frame::BulkString(items[1]->BulkString_0), entries),
        Command::SET => run_set(items, entries, now),
        Command::GET => run_get(items, entries, now),
        Command::DEL => reply(
            Frame::Integer(count_value(live_count(entries, payloads_from(items, 1), now))),
            entries.remove_keys(payloads_from(items, 1).to_set()),
        ),
        Command::EXISTS => reply(
            Frame::Integer(count_value(present_count(entries, payloads_from(items, 1), now))),
            swept(entries, payloads_from(items, 1), now),
        ),
        Command::INCR => run_counter(items, 1, entries, now),
        Command::DECR => run_counter(items, -1, entries, now),
        Command::LPUSH => run_push(items, true, entries, now),
        Command::RPUSH => run_push(items, false, entries, now),
        Command::SAVE => Outcome { effect: Effect::Save, entries },
    }
}

/// What a request does to the keyspace at time `now`, and what is owed to
/// the client.
///
/// A request is an array whose first element is a bulk string, the
/// command's name. The checks come in this order: the shape of the request,
/// the name, the number of elements, that every element is a bulk string,
/// and then what the command itself asks of its arguments.
pub open spec fn execute(request: Frame, entries: Map<Seq<u8>, StoredValue>, now: u64) -> Outcome {
    match request {
        Frame::Array(items) => if items.len() > 0 && items[0] is BulkString {
            let name = items[0]->BulkString_0;
            match command_named(name) {
                None => error_reply(unknown_command_text(name), entries),
                Some(command) => if !arity_ok(command, items.len() as int) {
                    error_reply(wrong_arity_text(command), entries)
                } else if !all_bulk(items) {
                    error_reply("ERR syntax error".spec_bytes(), entries)
                } else {
                    run(command, items, entries, now)
                },
            }
        } else {
            error_reply("ERR invalid command format".spec_bytes(), entries)
        },
        _ => error_reply("ERR invalid command format".spec_bytes(), entries),
    }
}

/// The reply to `SAVE`, once the snapshot was written or failed to be.
pub open spec fn save_outcome(result: Result<(), Seq<u8>>) -> Frame {
    match result {
        Ok(_) => Frame::SimpleString("OK".spec_bytes()),
        Err(reason) => Frame::Error("ERR ".spec_bytes() + sanitized(reason)),
    }
}

/// The bytes of a text.
fn text_of(text: &str) -> (bytes: Vec<u8>)
    ensures
        bytes@ == text.spec_bytes(),
{
    slice_to_vec(text.as_bytes())
}

fn error_of(text: &str) -> (frame: RespData)
    ensures
        frame@ == Frame::Error(text.spec_bytes()),
{
    RespData::Error(text_of(text))
}

fn uppercase(bytes: &[u8]) -> (upper: Vec<u8>)
    ensures
        upper@ == to_upper(bytes@),
{
    let mut upper: Vec<u8> = Vec::new();
    let mut i: usize = 0;
    while i < bytes.len()
        invariant
            i <= bytes.len(),
            upper@.len() == i,
            forall|j: int| 0 <= j < i ==> upper@[j] == upper_byte(bytes@[j]),
        decreases bytes.len() - i,
    {
        let b = bytes[i];
        if b >= 97 && b <= 122 {
            upper.push(b - 32);
        } else {
            upper.push(b);
        }
        i += 1;
    }
    assert(upper@ =~= to_upper(bytes@));
    upper
}

fn sanitize(bytes: &[u8]) -> (clean: Vec<u8>)
    ensures
        clean@ == sanitized(bytes@),
{
    let mut clean: Vec<u8> = Vec::new();
    let mut i: usize = 0;
    while i < bytes.len()
        invariant
            i <= bytes.len(),
            clean@.len() == i,
            forall|j: int| 0 <= j < i ==> clean@[j] == sanitized(bytes@)[j],
        decreases bytes.len() - i,
    {
        let b = bytes[i];
        if b == CR || b == LF {
            clean.push(32u8);
        } else {
            clean.push(b);
        }
        i += 1;
    }
    assert(clean@ =~= sanitized(bytes@));
    clean
}

fn bytes_equal(a: &[u8], b: &[u8]) -> (same: bool)
    ensures
        same == (a@ == b@),
{
    if a.len() != b.len() {
        return false;
    }
    let mut i: usize = 0;
    while i < a.len()
        invariant
            i <= a.len(),
            a.len() == b.len(),
            forall|j: int| 0 <= j < i ==> a@[j] == b@[j],
        decreases a.len() - i,
    {
        if a[i] != b[i] {
            return false;
        }
        i += 1;
    }
    assert(a@ =~= b@);
    true
}

fn is_word(upper: &[u8], word: &str) -> (same: bool)
    ensures
        same == (upper@ == word.spec_bytes()),
{
    bytes_equal(upper, word.as_bytes())
}

/// Finds the command that `name` stands for.
pub fn lookup_command(name: &[u8]) -> (found: Option<Command>)
    ensures
        found == command_named(name@),
{
    let upper = uppercase(name);
    let upper = upper.as_slice();
    if is_word(upper, "PING") {
        Some(Command::PING)
    } else if is_word(upper, "ECHO") {
        Some(Command::ECHO)
    } else if is_word(upper, "SET") {
        Some(Command::SET)
    } else if is_word(upper, "GET") {
        Some(Command::GET)
    } else if is_word(upper, "DEL") {
        Some(Command::DEL)
    } else if is_word(upper, "EXISTS") {
        Some(Command::EXISTS)
    } else if is_word(upper, "INCR") {
        Some(Command::INCR)
    } else if is_word(upper, "DECR") {
        Some(Command::DECR)
    } else if is_word(upper, "LPUSH") {
        Some(Command::LPUSH)
    } else if is_word(upper, "RPUSH") {
        Some(Command::RPUSH)
    } else if is_word(upper, "SAVE") {
        Some(Command::SAVE)
    } else {
        None
    }
}

fn command_text(command: Command) -> (word: Vec<u8>)
    ensures
        word@ == command_word(command),
{
    match command {
        Command::PING => text_of("ping"),
        Command::ECHO => text_of("echo"),
        Command::SET => text_of("set"),
        Command::GET => text_of("get"),
        Command::DEL => text_of("del"),
        Command::EXISTS => text_of("exists"),
        Command::INCR => text_of("incr"),
        Command::DECR => text_of("decr"),
        Command::LPUSH => text_of("lpush"),
        Command::RPUSH => text_of("rpush"),
        Command::SAVE => text_of("save"),
    }
}

fn check_arity(command: Command, len: usize) -> (ok: bool)
    ensures
        ok == arity_ok(command, len as int),
{
    match command {
        Command::PING => len == 1,
        Command::ECHO => len == 2,
        Command::SET => len >= 3,
        Command::GET => len == 2,
        Command::DEL => len >= 2,
        Command::EXISTS => len >= 2,
        Command::INCR => len == 2,
        Command::DECR => len == 2,
        Command::LPUSH => len >= 3,
        Command::RPUSH => len >= 3,
        Command::SAVE => len == 1,
    }
}

fn wrong_arity(command: Command) -> (frame: RespData)
    ensures
        frame@ == Frame::Error(wrong_arity_text(command)),
{
    let mut text = text_of("ERR wrong number of arguments for '");
    let word = command_text(command);
    push_bytes(&mut text, word.as_slice());
    push_bytes(&mut text, "'".as_bytes());
    RespData::Error(text)
}

fn unknown_command(name: &[u8]) -> (frame: RespData)
    ensures
        frame@ == Frame::Error(unknown_command_text(name@)),
{
    let mut text = text_of("ERR unknown command '");
    let clean = sanitize(name);
    push_bytes(&mut text, clean.as_slice());
    push_bytes(&mut text, "'".as_bytes());
    RespData::Error(text)
}

fn store_error(e: StoreError) -> (frame: RespData)
    ensures
        frame@ == Frame::Error(store_error_text(e)),
{
    match e {
        StoreError::NotAnInteger => error_of("ERR value is not an integer or out of range"),
        StoreError::Overflow => error_of("ERR increment or decrement would overflow"),
        StoreError::WrongType => error_of(
            "WRONGTYPE Operation against a key holding the wrong kind of value",
        ),
    }
}

fn count_reply(n: usize) -> (frame: RespData)
    ensures
        frame@ == Frame::Integer(count_value(n as nat)),
{
    let wide: u64 = n as u64;
    if wide > 9223372036854775807u64 {
        RespData::Integer(i64::MAX)
    } else {
        RespData::Integer(wide as i64)
    }
}

fn check_all_bulk(items: &Vec<RespData>) -> (ok: bool)
    ensures
        ok == all_bulk(frames_view(items@)),
{
    let mut i: usize = 0;
    while i < items.len()
        invariant
            i <= items.len(),
            forall|j: int| 0 <= j < i ==> #[trigger] frames_view(items@)[j] is BulkString,
        decreases items.len() - i,
    {
        match &items[i] {
            RespData::BulkString(_) => {},
            _ => {
                assert(!(frames_view(items@)[i as int] is BulkString));
                return false;
            },
        }
        i += 1;
    }
    true
}

/// The payload of the bulk string at `i`.
fn payload(items: &Vec<RespData>, i: usize) -> (bytes: &[u8])
    requires
        i < items.len(),
        frames_view(items@)[i as int] is BulkString,
    ensures
        bytes@ == frames_view(items@)[i as int]->BulkString_0,
{
    match &items[i] {
        RespData::BulkString(bytes) => bytes.as_slice(),
        _ => {
            let nothing: &[u8] = &[];
            nothing
        },
    }
}

/// Copies of the payloads from `start` on.
fn payloads(items: &Vec<RespData>, start: usize) -> (copies: Vec<Vec<u8>>)
    requires
        start <= items.len(),
        all_bulk(frames_view(items@)),
    ensures
        list_view(copies@) == payloads_from(frames_view(items@), start as int),
{
    let mut copies: Vec<Vec<u8>> = Vec::new();
    let mut i: usize = start;
    while i < items.len()
        invariant
            start <= i <= items.len(),
            all_bulk(frames_view(items@)),
            copies@.len() == i - start,
            forall|j: int|
                0 <= j < i - start ==> (#[trigger] copies@[j])@ == frames_view(
                    items@,
                )[start + j]->BulkString_0,
        decreases items.len() - i,
    {
        assert(frames_view(items@)[i as int] is BulkString);
        copies.push(copy_bytes(payload(items, i)));
        i += 1;
    }
    assert(list_view(copies@) =~= payloads_from(frames_view(items@), start as int));
    copies
}

/// Whether `reply` and the store's new state are what `expected` says.
pub open spec fn replied(
    reply: RespData,
    before: crate::store::StoreState,
    after: crate::store::StoreState,
    expected: Outcome,
) -> bool {
    expected.effect == Effect::Reply(reply@) && after == with_entries(before, expected.entries)
}

fn read_options(word: &[u8], amount: &[u8]) -> (r: Result<SetOptions, RespData>)
    ensures
        match set_options(word@, amount@) {
            Ok(options) => r matches Ok(x) && x == options,
            Err(text) => r matches Err(frame) && frame@ == Frame::Error(text),
        },
{
    let upper = uppercase(word);
    let upper = upper.as_slice();
    let ex = is_word(upper, "EX");
    let px = is_word(upper, "PX");
    let exat = is_word(upper, "EXAT");
    let pxat = is_word(upper, "PXAT");
    if !ex && !px && !exat && !pxat {
        return Err(error_of("ERR syntax error"));
    }
    match parse_i64(amount) {
        None => Err(error_of("ERR value is not an integer or out of range")),
        Some(n) => if ex {
            Ok(SetOptions::EX(n))
        } else if px {
            Ok(SetOptions::PX(n))
        } else if exat {
            Ok(SetOptions::EXAT(n))
        } else {
            Ok(SetOptions::PXAT(n))
        },
    }
}

fn handle_set(items: &Vec<RespData>, store: &mut RedisStore, now: u64) -> (reply: RespData)
    requires
        items.len() >= 3,
        all_bulk(frames_view(items@)),
    ensures
        replied(
            reply,
            old(store)@,
            final(store)@,
            run_set(frames_view(items@), old(store)@.entries, now),
        ),
{
    let ghost models = frames_view(items@);
    assert(models[1] is BulkString && models[2] is BulkString);
    let options = if items.len() == 3 {
        SetOptions::NoExpiry
    } else if items.len() == 5 {
        assert(models[3] is BulkString && models[4] is BulkString);
        match read_options(payload(items, 3), payload(items, 4)) {
            Ok(options) => options,
            Err(frame) => {
                assert(store@ == with_entries(store@, store@.entries));
                return frame;
            },
        }
    } else {
        assert(store@ == with_entries(store@, store@.entries));
        return error_of("ERR syntax error");
    };
    let key = copy_bytes(payload(items, 1));
    let value = copy_bytes(payload(items, 2));
    store.set_with_options(key, RedisValueType::String(value), options, now);
    RespData::SimpleString(text_of("OK"))
}

fn handle_get(items: &Vec<RespData>, store: &mut RedisStore, now: u64) -> (reply: RespData)
    requires
        items.len() == 2,
        all_bulk(frames_view(items@)),
    ensures
        replied(
            reply,
            old(store)@,
            final(store)@,
            run_get(frames_view(items@), old(store)@.entries, now),
        ),
{
    assert(frames_view(items@)[1] is BulkString);
    match store.get(payload(items, 1), now) {
        Some(value) => match value.data {
            RedisValueType::String(text) => RespData::BulkString(text),
            RedisValueType::Integer(n) => RespData::BulkString(format_i64(n)),
            RedisValueType::List(_) => store_error(StoreError::WrongType),
        },
        None => RespData::Null,
    }
}

fn handle_counter(items: &Vec<RespData>, delta: i64, store: &mut RedisStore, now: u64) -> (reply:
    RespData)
    requires
        items.len() == 2,
        all_bulk(frames_view(items@)),
    ensures
        replied(
            reply,
            old(store)@,
            final(store)@,
            run_counter(frames_view(items@), delta as int, old(store)@.entries, now),
        ),
{
    assert(frames_view(items@)[1] is BulkString);
    match store.incr_by(payload(items, 1), delta, now) {
        Ok(n) => RespData::Integer(n),
        Err(e) => store_error(e),
    }
}

fn handle_push(items: &Vec<RespData>, front: bool, store: &mut RedisStore, now: u64) -> (reply:
    RespData)
    requires
        items.len() >= 3,
        all_bulk(frames_view(items@)),
    ensures
        replied(
            reply,
            old(store)@,
            final(store)@,
            run_push(frames_view(items@), front, old(store)@.entries, now),
        ),
{
    assert(frames_view(items@)[1] is BulkString);
    let values = payloads(items, 2);
    match store.push(payload(items, 1), values, front, now) {
        Ok(len) => count_reply(len),
        Err(e) => store_error(e),
    }
}

/// Carries out one request at time `now`.
///
/// An error of the request or of the command is a reply like any other:
/// nothing here ends a connection.
pub fn handle_command(command: &RespData, store: &mut RedisStore, now: u64) -> (action: Action)
    ensures
        action@ == execute(command@, old(store)@.entries, now).effect,
        final(store)@ == with_entries(
            old(store)@,
            execute(command@, old(store)@.entries, now).entries,
        ),
        action matches Action::Save(saved) ==> lists_all(saved@, final(store)@.entries),
{
    assert(store@ == with_entries(store@, store@.entries));
    let items = match command {
        RespData::Array(items) => {
            proof {
                lemma_view_of_array(*command);
            }
            items
        },
        _ => {
            return Action::Reply(error_of("ERR invalid command format"));
        },
    };
    let ghost models = frames_view(items@);
    if items.len() == 0 {
        return Action::Reply(error_of("ERR invalid command format"));
    }
    let name = match &items[0] {
        RespData::BulkString(name) => name.as_slice(),
        _ => {
            assert(!(models[0] is BulkString));
            return Action::Reply(error_of("ERR invalid command format"));
        },
    };
    assert(models[0] == Frame::BulkString(name@));
    let found = match lookup_command(name) {
        Some(found) => found,
        None => {
            return Action::Reply(unknown_command(name));
        },
    };
    if !check_arity(found, items.len()) {
        return Action::Reply(wrong_arity(found));
    }
    if !check_all_bulk(items) {
        return Action::Reply(error_of("ERR syntax error"));
    }
    match found {
        Command::PING => Action::Reply(RespData::SimpleString(text_of("PONG"))),
        Command::ECHO => {
            assert(models[1] is BulkString);
            Action::Reply(RespData::BulkString(copy_bytes(payload(items, 1))))
        },
        Command::SET => Action::Reply(handle_set(items, store, now)),
        Command::GET => Action::Reply(handle_get(items, store, now)),
        Command::DEL => {
            let keys = payloads(items, 1);
            let removed = store.del(&keys, now);
            Action::Reply(count_reply(removed))
        },
        Command::EXISTS => {
            let keys = payloads(items, 1);
            let present = store.exists_count(&keys, now);
            Action::Reply(count_reply(present))
        },
        Command::INCR => Action::Reply(handle_counter(items, 1, store, now)),
        Command::DECR => Action::Reply(handle_counter(items, -1, store, now)),
        Command::LPUSH => Action::Reply(handle_push(items, true, store, now)),
        Command::RPUSH => Action::Reply(handle_push(items, false, store, now)),
        Command::SAVE => Action::Save(store.snapshot()),
    }
}

/// The reply to `SAVE`: `OK`, or the reason why the snapshot was not written.
pub fn save_reply(result: Result<(), Vec<u8>>) -> (frame: RespData)
    ensures
        frame@ == save_outcome(
            match result {
                Ok(_) => Ok(()),
                Err(reason) => Err(reason@),
            },
        ),
{
    match result {
        Ok(_) => RespData::SimpleString(text_of("OK")),
        Err(reason) => {
            let mut text = text_of("ERR ");
            let clean = sanitize(reason.as_slice());
            push_bytes(&mut text, clean.as_slice());
            RespData::Error(text)
        },
    }
}

} // verus!
