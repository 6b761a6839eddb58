//! What holds of the dispatcher and of a connection's turn as a whole: an
//! expired entry is never observed, the replies do not depend on how the
//! stream was cut into reads, every reply can go over the wire, commands
//! are known by their names in any case, and what the commands do to one
//! another's keys.

use crate::codec_laws::{law_parse_ignores_what_follows, law_round_trip_in_a_stream};
use crate::command::{
    all_bulk, arity_ok, command_named, command_word, execute, payloads_from, run, to_upper,
    upper_byte, run_counter, run_push, run_set, sanitized, save_outcome, set_options,
    store_error_text, Command, Effect, Outcome,
};
use crate::connection::{after_output, serve};
use crate::decimal::{decimal_text, digits_of};
use crate::frame::{frame_wf, is_line_text, Frame, CR, LF, MAX_BULK_LEN};
use crate::parser::{lemma_parse_bounds, parse_frame, Parsed};
use crate::store::{
    after_counter, after_push, live_count, lookup, present_count, purge, swept, Shape, StoreError,
    StoredValue,
};
use crate::store_laws::live_part;
use vstd::prelude::*;
use vstd::string::StringSliceAdditionalSpecFns;
use vstd::utf8::{is_ascii_chars, is_ascii_chars_encode_utf8};

verus! {

/// An observer finds under a key what the live part of the keyspace holds
/// there.
pub proof fn law_observers_see_the_live_part(entries: Map<Seq<u8>, StoredValue>, key: Seq<u8>, now: u64)
    ensures
        lookup(live_part(entries, now), key, now) == lookup(entries, key, now),
{
}

proof fn lemma_live_count(entries: Map<Seq<u8>, StoredValue>, keys: Seq<Seq<u8>>, now: u64)
    ensures
        live_count(live_part(entries, now), keys, now) == live_count(entries, keys, now),
        present_count(live_part(entries, now), keys, now) == present_count(entries, keys, now),
    decreases keys.len(),
{
    if keys.len() > 0 {
        lemma_live_count(entries, keys.drop_last(), now);
    }
}

/// Whether two keyspaces look the same to every observer at time `now`.
pub open spec fn same_to_observers(
    a: Map<Seq<u8>, StoredValue>,
    b: Map<Seq<u8>, StoredValue>,
    now: u64,
) -> bool {
    live_part(a, now) == live_part(b, now)
}

/// An expired entry is never observed: a request answers the same, and
/// leaves the same for every observer, whether the expired entries are
/// still in the keyspace or were removed before.
pub proof fn law_expired_entries_do_not_matter(
    request: Frame,
    entries: Map<Seq<u8>, StoredValue>,
    now: u64,
)
    ensures
        execute(request, live_part(entries, now), now).effect == execute(
            request,
            entries,
            now,
        ).effect,
        same_to_observers(
            execute(request, live_part(entries, now), now).entries,
            execute(request, entries, now).entries,
            now,
        ),
{
    let clean = live_part(entries, now);
    let a = execute(request, clean, now);
    let b = execute(request, entries, now);
    assert(live_part(clean, now) =~= live_part(entries, now));
    if let Frame::Array(items) = request {
        if items.len() > 0 && items[0] is BulkString {
            let name = items[0]->BulkString_0;
            if let Some(command) = crate::command::command_named(name) {
                if crate::command::arity_ok(command, items.len() as int) && all_bulk(items) {
                    lemma_run_on_live_part(command, items, entries, now);
                }
            }
        }
    }
}

proof fn lemma_run_on_live_part(
    command: Command,
    items: Seq<Frame>,
    entries: Map<Seq<u8>, StoredValue>,
    now: u64,
)
    ensures
        run(command, items, live_part(entries, now), now).effect == run(
            command,
            items,
            entries,
            now,
        ).effect,
        same_to_observers(
            run(command, items, live_part(entries, now), now).entries,
            run(command, items, entries, now).entries,
            now,
        ),
{
    let clean = live_part(entries, now);
    let a = run(command, items, clean, now);
    let b = run(command, items, entries, now);
    assert(live_part(clean, now) =~= live_part(entries, now));
    match command {
        Command::PING => {},
        Command::ECHO => {},
        Command::SAVE => {},
        Command::SET => {
            assert(run_set(items, clean, now).effect == run_set(items, entries, now).effect);
            assert(live_part(a.entries, now) =~= live_part(b.entries, now));
        },
        Command::GET => {
            let key = items[1]->BulkString_0;
            assert(lookup(clean, key, now) == lookup(entries, key, now));
            assert(live_part(purge(clean, key, now), now) =~= live_part(
                purge(entries, key, now),
                now,
            ));
        },
        Command::DEL => {
            let keys = payloads_from(items, 1);
            lemma_live_count(entries, keys, now);
            assert(live_part(a.entries, now) =~= live_part(b.entries, now));
        },
        Command::EXISTS => {
            let keys = payloads_from(items, 1);
            lemma_live_count(entries, keys, now);
            assert(live_part(swept(clean, keys, now), now) =~= live_part(
                swept(entries, keys, now),
                now,
            ));
        },
        Command::INCR => {
            lemma_counter_on_live_part(items, 1, entries, now);
        },
        Command::DECR => {
            lemma_counter_on_live_part(items, -1, entries, now);
        },
        Command::LPUSH => {
            lemma_push_on_live_part(items, true, entries, now);
        },
        Command::RPUSH => {
            lemma_push_on_live_part(items, false, entries, now);
        },
    }
}

proof fn lemma_counter_on_live_part(
    items: Seq<Frame>,
    delta: int,
    entries: Map<Seq<u8>, StoredValue>,
    now: u64,
)
    ensures
        run_counter(items, delta, live_part(entries, now), now).effect == run_counter(
            items,
            delta,
            entries,
            now,
        ).effect,
        same_to_observers(
            run_counter(items, delta, live_part(entries, now), now).entries,
            run_counter(items, delta, entries, now).entries,
            now,
        ),
{
    let clean = live_part(entries, now);
    let key = items[1]->BulkString_0;
    assert(lookup(clean, key, now) == lookup(entries, key, now));
    assert(live_part(after_counter(clean, key, delta, now), now) =~= live_part(
        after_counter(entries, key, delta, now),
        now,
    ));
}

proof fn lemma_push_on_live_part(
    items: Seq<Frame>,
    front: bool,
    entries: Map<Seq<u8>, StoredValue>,
    now: u64,
)
    ensures
        run_push(items, front, live_part(entries, now), now).effect == run_push(
            items,
            front,
            entries,
            now,
        ).effect,
        same_to_observers(
            run_push(items, front, live_part(entries, now), now).entries,
            run_push(items, front, entries, now).entries,
            now,
        ),
{
    let clean = live_part(entries, now);
    let key = items[1]->BulkString_0;
    let values = payloads_from(items, 2);
    assert(lookup(clean, key, now) == lookup(entries, key, now));
    assert(live_part(after_push(clean, key, values, front, now), now) =~= live_part(
        after_push(entries, key, values, front, now),
        now,
    ));
}

/// The replies do not depend on how the stream was cut into reads: a turn
/// on the bytes `first`, which ends for want of more, and then a turn on
/// what it left with the bytes `second` behind, give the replies and the
/// keyspace of one turn on all the bytes at once.
pub proof fn law_turns_compose(
    first: Seq<u8>,
    second: Seq<u8>,
    entries: Map<Seq<u8>, StoredValue>,
    now: u64,
)
    requires
        serve(first, entries, now).pause is NeedMore,
    ensures
        serve(first + second, entries, now) == after_output(
            serve(first, entries, now).output,
            serve(
                serve(first, entries, now).rest + second,
                serve(first, entries, now).entries,
                now,
            ),
        ),
    decreases first.len(),
{
    let whole = first + second;
    let turn = serve(first, entries, now);
    match parse_frame(first) {
        Parsed::Incomplete => {
            let later = serve(first + second, entries, now);
            assert(Seq::<u8>::empty() + later.output =~= later.output);
        },
        Parsed::Malformed(e) => {},
        Parsed::Complete(request, used) => {
            lemma_parse_bounds(first);
            law_parse_ignores_what_follows(first, second);
            let outcome = execute(request, entries, now);
            match outcome.effect {
                Effect::Save => {},
                Effect::Reply(frame) => {
                    let head = crate::frame::encode(frame);
                    let rest = first.skip(used);
                    assert(whole.skip(used) =~= rest + second);
                    law_turns_compose(rest, second, outcome.entries, now);
                    let inner = serve(rest, outcome.entries, now);
                    let last = serve(inner.rest + second, inner.entries, now);
                    assert(head + (inner.output + last.output) =~= (head + inner.output)
                        + last.output);
                },
            }
        },
    }
}


/// Text in printable ASCII.
spec fn plain_text(s: Seq<char>) -> bool {
    forall|i: int| 0 <= i < s.len() ==> ' ' <= #[trigger] s[i] <= '~'
}

proof fn lemma_plain_text(text: &str)
    requires
        plain_text(text@),
    ensures
        is_line_text(text.spec_bytes()),
{
    assert(is_ascii_chars(text@)) by {
        assert forall|i: int| 0 <= i < text@.len() implies '\0' <= #[trigger] text@[i]
            <= '\u{7f}' by {
            assert(' ' <= text@[i] <= '~');
        }
    }
    is_ascii_chars_encode_utf8(text@);
    let bytes = text.spec_bytes();
    assert forall|i: int| 0 <= i < bytes.len() implies #[trigger] bytes[i] != CR && bytes[i]
        != LF by {
        assert(' ' <= text@[i] <= '~');
        assert(bytes[i] == text@[i] as u8);
    }
}

proof fn lemma_joined_line_text(a: Seq<u8>, b: Seq<u8>)
    requires
        is_line_text(a),
        is_line_text(b),
    ensures
        is_line_text(a + b),
{
    assert forall|i: int| 0 <= i < (a + b).len() implies #[trigger] (a + b)[i] != CR && (a
        + b)[i] != LF by {
        if i < a.len() {
            assert((a + b)[i] == a[i]);
        } else {
            assert((a + b)[i] == b[i - a.len()]);
        }
    }
}

proof fn lemma_sanitized_line_text(s: Seq<u8>)
    ensures
        is_line_text(sanitized(s)),
{
}

proof fn lemma_fixed_texts()
    ensures
        is_line_text("PONG".spec_bytes()),
        is_line_text("OK".spec_bytes()),
        is_line_text("ERR syntax error".spec_bytes()),
        is_line_text("ERR invalid command format".spec_bytes()),
        is_line_text("ERR ".spec_bytes()),
        is_line_text("'".spec_bytes()),
        is_line_text("ERR unknown command '".spec_bytes()),
        is_line_text("ERR wrong number of arguments for '".spec_bytes()),
        forall|e: StoreError| is_line_text(#[trigger] store_error_text(e)),
        forall|c: Command| is_line_text(#[trigger] command_word(c)),
{
    reveal_strlit("PONG");
    lemma_plain_text("PONG");
    reveal_strlit("OK");
    lemma_plain_text("OK");
    reveal_strlit("ERR syntax error");
    lemma_plain_text("ERR syntax error");
    reveal_strlit("ERR invalid command format");
    lemma_plain_text("ERR invalid command format");
    reveal_strlit("ERR ");
    lemma_plain_text("ERR ");
    reveal_strlit("'");
    lemma_plain_text("'");
    reveal_strlit("ERR unknown command '");
    lemma_plain_text("ERR unknown command '");
    reveal_strlit("ERR wrong number of arguments for '");
    lemma_plain_text("ERR wrong number of arguments for '");
    reveal_strlit("ERR value is not an integer or out of range");
    lemma_plain_text("ERR value is not an integer or out of range");
    reveal_strlit("ERR increment or decrement would overflow");
    lemma_plain_text("ERR increment or decrement would overflow");
    reveal_strlit("WRONGTYPE Operation against a key holding the wrong kind of value");
    lemma_plain_text("WRONGTYPE Operation against a key holding the wrong kind of value");
    reveal_strlit("ping");
    lemma_plain_text("ping");
    reveal_strlit("echo");
    lemma_plain_text("echo");
    reveal_strlit("set");
    lemma_plain_text("set");
    reveal_strlit("get");
    lemma_plain_text("get");
    reveal_strlit("del");
    lemma_plain_text("del");
    reveal_strlit("exists");
    lemma_plain_text("exists");
    reveal_strlit("incr");
    lemma_plain_text("incr");
    reveal_strlit("decr");
    lemma_plain_text("decr");
    reveal_strlit("lpush");
    lemma_plain_text("lpush");
    reveal_strlit("rpush");
    lemma_plain_text("rpush");
    reveal_strlit("save");
    lemma_plain_text("save");
}

spec fn pow10(k: nat) -> nat
    decreases k,
{
    if k == 0 {
        1
    } else {
        10 * pow10((k - 1) as nat)
    }
}

proof fn lemma_digits_len(n: nat, k: nat)
    requires
        k >= 1,
        n < pow10(k),
    ensures
        digits_of(n).len() <= k,
    decreases k,
{
    if n >= 10 {
        assert(k >= 2) by {
            reveal_with_fuel(pow10, 2);
        }
        lemma_digits_len(n / 10, (k - 1) as nat);
    }
}

/// The numeral of a 64-bit integer takes twenty bytes at most.
proof fn lemma_numeral_is_short(n: i64)
    ensures
        decimal_text(n as int).len() <= 20,
{
    assert(pow10(19) == 10000000000000000000nat) by {
        reveal_with_fuel(pow10, 20);
    }
    if n < 0 {
        lemma_digits_len((-n) as nat, 19);
    } else {
        lemma_digits_len(n as nat, 19);
    }
}

/// A keyspace whose texts a bulk string can carry.
pub open spec fn texts_fit(entries: Map<Seq<u8>, StoredValue>) -> bool {
    forall|k: Seq<u8>|
        #[trigger] entries.contains_key(k) ==> (entries[k].shape matches Shape::Text(text)
            ==> text.len() <= MAX_BULK_LEN)
}

/// Every reply can go over the wire: to a request that the wire can carry,
/// on a keyspace whose texts a bulk string can carry, the dispatcher
/// answers with a frame that the wire can carry, and leaves such a
/// keyspace. With `codec_laws::law_round_trip`, the client reads the reply
/// that was sent.
pub proof fn law_replies_are_wire_safe(
    request: Frame,
    entries: Map<Seq<u8>, StoredValue>,
    now: u64,
)
    requires
        frame_wf(request),
        texts_fit(entries),
    ensures
        execute(request, entries, now).effect matches Effect::Reply(frame) ==> frame_wf(frame),
        texts_fit(execute(request, entries, now).entries),
{
    lemma_fixed_texts();
    if let Frame::Array(items) = request {
        if items.len() > 0 && items[0] is BulkString {
            let name = items[0]->BulkString_0;
            match command_named(name) {
                None => {
                    lemma_sanitized_line_text(name);
                    lemma_joined_line_text("ERR unknown command '".spec_bytes(), sanitized(name));
                    lemma_joined_line_text(
                        "ERR unknown command '".spec_bytes() + sanitized(name),
                        "'".spec_bytes(),
                    );
                },
                Some(command) => {
                    if !arity_ok(command, items.len() as int) {
                        lemma_joined_line_text(
                            "ERR wrong number of arguments for '".spec_bytes(),
                            command_word(command),
                        );
                        lemma_joined_line_text(
                            "ERR wrong number of arguments for '".spec_bytes() + command_word(
                                command,
                            ),
                            "'".spec_bytes(),
                        );
                    } else if all_bulk(items) {
                        lemma_run_is_wire_safe(command, items, entries, now);
                    }
                },
            }
        }
    }
}

proof fn lemma_run_is_wire_safe(
    command: Command,
    items: Seq<Frame>,
    entries: Map<Seq<u8>, StoredValue>,
    now: u64,
)
    requires
        forall|i: int| 0 <= i < items.len() ==> frame_wf(#[trigger] items[i]),
        all_bulk(items),
        arity_ok(command, items.len() as int),
        texts_fit(entries),
    ensures
        run(command, items, entries, now).effect matches Effect::Reply(frame) ==> frame_wf(frame),
        texts_fit(run(command, items, entries, now).entries),
{
    lemma_fixed_texts();
    match command {
        Command::PING => {},
        Command::ECHO => {
            assert(frame_wf(items[1]));
        },
        Command::SAVE => {},
        Command::SET => {
            assert(frame_wf(items[1]) && frame_wf(items[2]));
            assert(items[2] is BulkString);
            if items.len() == 5 {
                assert(items[3] is BulkString && items[4] is BulkString);
            }
        },
        Command::GET => {
            let key = items[1]->BulkString_0;
            if let Some(v) = lookup(entries, key, now) {
                assert(entries.contains_key(key));
                if let Shape::Counter(n) = v.shape {
                    lemma_numeral_is_short(n);
                }
            }
        },
        Command::DEL => {},
        Command::EXISTS => {},
        Command::INCR => {},
        Command::DECR => {},
        Command::LPUSH => {},
        Command::RPUSH => {},
    }
}

/// The client reads the reply that was sent: the wire form of a reply, with
/// whatever follows it in the stream, parses to that reply.
pub proof fn law_client_reads_the_reply(
    request: Frame,
    entries: Map<Seq<u8>, StoredValue>,
    now: u64,
    following: Seq<u8>,
)
    requires
        frame_wf(request),
        texts_fit(entries),
    ensures
        execute(request, entries, now).effect matches Effect::Reply(frame) ==> parse_frame(
            crate::frame::encode(frame) + following,
        ) == Parsed::Complete(frame, crate::frame::encode(frame).len() as int),
{
    law_replies_are_wire_safe(request, entries, now);
    if let Effect::Reply(frame) = execute(request, entries, now).effect {
        law_round_trip_in_a_stream(frame, following);
    }
}

/// The reply to `SAVE` can go over the wire, whatever the reason of a
/// failure says.
pub proof fn law_save_reply_is_wire_safe(result: Result<(), Seq<u8>>)
    ensures
        frame_wf(save_outcome(result)),
{
    lemma_fixed_texts();
    if let Err(reason) = result {
        lemma_sanitized_line_text(reason);
        lemma_joined_line_text("ERR ".spec_bytes(), sanitized(reason));
    }
}


/// The name of a command in upper case.
pub open spec fn command_name(command: Command) -> Seq<u8> {
    match command {
        Command::PING => "PING".spec_bytes(),
        Command::ECHO => "ECHO".spec_bytes(),
        Command::SET => "SET".spec_bytes(),
        Command::GET => "GET".spec_bytes(),
        Command::DEL => "DEL".spec_bytes(),
        Command::EXISTS => "EXISTS".spec_bytes(),
        Command::INCR => "INCR".spec_bytes(),
        Command::DECR => "DECR".spec_bytes(),
        Command::LPUSH => "LPUSH".spec_bytes(),
        Command::RPUSH => "RPUSH".spec_bytes(),
        Command::SAVE => "SAVE".spec_bytes(),
    }
}

/// The bytes of a text in ASCII are its characters.
proof fn lemma_ascii_bytes(text: &str)
    requires
        is_ascii_chars(text@),
    ensures
        text.spec_bytes().len() == text@.len(),
        forall|i: int| 0 <= i < text@.len() ==> text.spec_bytes()[i] == #[trigger] text@[i] as u8,
{
    is_ascii_chars_encode_utf8(text@);
}

/// A word in upper case and the same word in lower case, both in ASCII
/// letters: the upper-case form of either is the first.
proof fn lemma_word(upper: &str, lower: &str)
    requires
        upper@.len() == lower@.len(),
        forall|i: int| 0 <= i < upper@.len() ==> 'A' <= #[trigger] upper@[i] <= 'Z',
        forall|i: int|
            0 <= i < lower@.len() ==> 'a' <= #[trigger] lower@[i] <= 'z' && lower@[i] as u8
                == upper@[i] as u8 + 32,
    ensures
        to_upper(upper.spec_bytes()) == upper.spec_bytes(),
        to_upper(lower.spec_bytes()) == upper.spec_bytes(),
        upper.spec_bytes().len() == upper@.len(),
        forall|i: int| 0 <= i < upper@.len() ==> upper.spec_bytes()[i] == upper@[i] as u8,
{
    assert(is_ascii_chars(upper@)) by {
        assert forall|i: int| 0 <= i < upper@.len() implies '\0' <= #[trigger] upper@[i]
            <= '\u{7f}' by {
            assert('A' <= upper@[i] <= 'Z');
        }
    }
    assert(is_ascii_chars(lower@)) by {
        assert forall|i: int| 0 <= i < lower@.len() implies '\0' <= #[trigger] lower@[i]
            <= '\u{7f}' by {
            assert('a' <= lower@[i] <= 'z');
        }
    }
    lemma_ascii_bytes(upper);
    lemma_ascii_bytes(lower);
    let big = upper.spec_bytes();
    let small = lower.spec_bytes();
    assert forall|i: int| 0 <= i < big.len() implies upper_byte(big[i]) == big[i] && upper_byte(
        small[i],
    ) == big[i] by {
        assert('A' <= upper@[i] <= 'Z');
        assert('a' <= lower@[i] <= 'z');
    }
    assert(to_upper(big) =~= big);
    assert(to_upper(small) =~= big);
}

proof fn lemma_command_names_upper()
    ensures
        forall|c: Command| to_upper(#[trigger] command_name(c)) == command_name(c),
        forall|c: Command| to_upper(#[trigger] command_word(c)) == command_name(c),
        forall|c: Command, d: Command|
            c != d ==> #[trigger] command_name(c) != #[trigger] command_name(d),
{
    reveal_strlit("PING");
    reveal_strlit("ping");
    lemma_word("PING", "ping");
    reveal_strlit("ECHO");
    reveal_strlit("echo");
    lemma_word("ECHO", "echo");
    reveal_strlit("SET");
    reveal_strlit("set");
    lemma_word("SET", "set");
    reveal_strlit("GET");
    reveal_strlit("get");
    lemma_word("GET", "get");
    reveal_strlit("DEL");
    reveal_strlit("del");
    lemma_word("DEL", "del");
    reveal_strlit("EXISTS");
    reveal_strlit("exists");
    lemma_word("EXISTS", "exists");
    reveal_strlit("INCR");
    reveal_strlit("incr");
    lemma_word("INCR", "incr");
    reveal_strlit("DECR");
    reveal_strlit("decr");
    lemma_word("DECR", "decr");
    reveal_strlit("LPUSH");
    reveal_strlit("lpush");
    lemma_word("LPUSH", "lpush");
    reveal_strlit("RPUSH");
    reveal_strlit("rpush");
    lemma_word("RPUSH", "rpush");
    reveal_strlit("SAVE");
    reveal_strlit("save");
    lemma_word("SAVE", "save");
    assert forall|c: Command, d: Command| c != d implies #[trigger] command_name(c)
        != #[trigger] command_name(d) by {
        let a = command_name(c);
        let b = command_name(d);
        if a.len() == b.len() {
            assert(a[0] != b[0] || a[1] != b[1]);
        }
    }
}

/// Commands are known by their names, in upper case, in lower case and in
/// any mix of the two: a name stands for the command that its upper-case
/// form names.
pub proof fn law_command_names(command: Command, name: Seq<u8>)
    ensures
        command_named(command_name(command)) == Some(command),
        command_named(command_word(command)) == Some(command),
        to_upper(name) == command_name(command) ==> command_named(name) == Some(command),
        command_named(name) == command_named(to_upper(name)),
{
    lemma_command_names_upper();
    assert(to_upper(to_upper(name)) =~= to_upper(name));
    lemma_named_by_upper(command, command_name(command));
    lemma_named_by_upper(command, command_word(command));
    if to_upper(name) == command_name(command) {
        lemma_named_by_upper(command, name);
    }
}

proof fn lemma_named_by_upper(command: Command, name: Seq<u8>)
    requires
        to_upper(name) == command_name(command),
    ensures
        command_named(name) == Some(command),
{
    lemma_command_names_upper();
    let upper = to_upper(name);
    assert(command_name(Command::PING) == "PING".spec_bytes());
    assert(command_name(Command::ECHO) == "ECHO".spec_bytes());
    assert(command_name(Command::SET) == "SET".spec_bytes());
    assert(command_name(Command::GET) == "GET".spec_bytes());
    assert(command_name(Command::DEL) == "DEL".spec_bytes());
    assert(command_name(Command::EXISTS) == "EXISTS".spec_bytes());
    assert(command_name(Command::INCR) == "INCR".spec_bytes());
    assert(command_name(Command::DECR) == "DECR".spec_bytes());
    assert(command_name(Command::LPUSH) == "LPUSH".spec_bytes());
    assert(command_name(Command::RPUSH) == "RPUSH".spec_bytes());
    assert(command_name(Command::SAVE) == "SAVE".spec_bytes());
}


/// The request that consists of these words: an array of bulk strings.
pub open spec fn request_of(words: Seq<Seq<u8>>) -> Frame {
    Frame::Array(Seq::new(words.len(), |i: int| Frame::BulkString(words[i])))
}

/// What a request of the words `name`, in any mix of cases, and `args`
/// does, where their number suits the command: what `run` says.
proof fn lemma_request_runs(
    command: Command,
    name: Seq<u8>,
    words: Seq<Seq<u8>>,
    entries: Map<Seq<u8>, StoredValue>,
    now: u64,
)
    requires
        words.len() > 0,
        words[0] == name,
        to_upper(name) == command_name(command),
        arity_ok(command, words.len() as int),
    ensures
        execute(request_of(words), entries, now) == run(
            command,
            request_of(words)->Array_0,
            entries,
            now,
        ),
        payloads_from(request_of(words)->Array_0, 1) == words.skip(1),
        words.len() >= 2 ==> payloads_from(request_of(words)->Array_0, 2) == words.skip(2),
{
    law_command_names(command, name);
    let items = request_of(words)->Array_0;
    assert(items[0] == Frame::BulkString(name));
    assert(all_bulk(items));
    assert(payloads_from(items, 1) =~= words.skip(1));
    if words.len() >= 2 {
        assert(payloads_from(items, 2) =~= words.skip(2));
    }
}

/// `PING` answers `PONG` and leaves the keyspace as it is.
pub proof fn law_ping(name: Seq<u8>, entries: Map<Seq<u8>, StoredValue>, now: u64)
    requires
        to_upper(name) == command_name(Command::PING),
    ensures
        execute(request_of(seq![name]), entries, now) == (Outcome {
            effect: Effect::Reply(Frame::SimpleString("PONG".spec_bytes())),
            entries,
        }),
{
    lemma_request_runs(Command::PING, name, seq![name], entries, now);
}

/// What was `SET` is what `GET` gets: after `SET key value`, a `GET key`
/// at any time answers the value, whatever the key held before.
pub proof fn law_set_then_get(
    key: Seq<u8>,
    value: Seq<u8>,
    entries: Map<Seq<u8>, StoredValue>,
    set_at: u64,
    get_at: u64,
)
    ensures
        ({
            let set = request_of(seq![command_name(Command::SET), key, value]);
            let get = request_of(seq![command_name(Command::GET), key]);
            let after = execute(set, entries, set_at);
            &&& after.effect == Effect::Reply(Frame::SimpleString("OK".spec_bytes()))
            &&& execute(get, after.entries, get_at).effect == Effect::Reply(
                Frame::BulkString(value),
            )
        }),
{
    law_command_names(Command::SET, command_name(Command::SET));
    law_command_names(Command::GET, command_name(Command::GET));
    lemma_command_names_upper();
    let set_words = seq![command_name(Command::SET), key, value];
    let get_words = seq![command_name(Command::GET), key];
    lemma_request_runs(Command::SET, command_name(Command::SET), set_words, entries, set_at);
    let after = execute(request_of(set_words), entries, set_at);
    lemma_request_runs(Command::GET, command_name(Command::GET), get_words, after.entries, get_at);
}

/// A key that was `SET` with `PX millis` at the time `set_at` is there for
/// every `GET` before `set_at + millis` and gone for every `GET` from then
/// on, and `EXISTS` says the same.
pub proof fn law_set_with_px_expires(
    key: Seq<u8>,
    value: Seq<u8>,
    amount: Seq<u8>,
    millis: i64,
    entries: Map<Seq<u8>, StoredValue>,
    set_at: u64,
    get_at: u64,
)
    requires
        crate::decimal::i64_of_decimal(amount) == Some(millis),
        0 <= set_at + millis <= u64::MAX,
    ensures
        ({
            let set = request_of(
                seq![command_name(Command::SET), key, value, "PX".spec_bytes(), amount],
            );
            let get = request_of(seq![command_name(Command::GET), key]);
            let probe = request_of(seq![command_name(Command::EXISTS), key]);
            let after = execute(set, entries, set_at);
            &&& after.effect == Effect::Reply(Frame::SimpleString("OK".spec_bytes()))
            &&& execute(get, after.entries, get_at).effect == Effect::Reply(
                if get_at < set_at + millis {
                    Frame::BulkString(value)
                } else {
                    Frame::Null
                },
            )
            &&& execute(probe, after.entries, get_at).effect == Effect::Reply(
                Frame::Integer(
                    if get_at < set_at + millis {
                        1int
                    } else {
                        0int
                    },
                ),
            )
        }),
{
    lemma_command_names_upper();
    reveal_strlit("PX");
    reveal_strlit("EX");
    reveal_strlit("px");
    lemma_word("PX", "px");
    let px = "PX".spec_bytes();
    assert(px != "EX".spec_bytes()) by {
        reveal_strlit("ex");
        lemma_word("EX", "ex");
        assert(px[0] != "EX".spec_bytes()[0]);
    }
    let set_words = seq![command_name(Command::SET), key, value, px, amount];
    let get_words = seq![command_name(Command::GET), key];
    let probe_words = seq![command_name(Command::EXISTS), key];
    lemma_request_runs(Command::SET, command_name(Command::SET), set_words, entries, set_at);
    let after = execute(request_of(set_words), entries, set_at);
    assert(set_options(px, amount) == Ok::<crate::store::SetOptions, Seq<u8>>(
        crate::store::SetOptions::PX(millis),
    ));
    lemma_request_runs(Command::GET, command_name(Command::GET), get_words, after.entries, get_at);
    lemma_request_runs(
        Command::EXISTS,
        command_name(Command::EXISTS),
        probe_words,
        after.entries,
        get_at,
    );
    let keys = probe_words.skip(1);
    assert(keys.drop_last() =~= Seq::<Seq<u8>>::empty());
    assert(keys.last() == key);
    assert(present_count(after.entries, keys.drop_last(), get_at) == 0);
}

/// `INCR` counts: on a key that holds nothing, the first `INCR` answers 1
/// and the second 2, whenever they come.
pub proof fn law_incr_twice(
    key: Seq<u8>,
    entries: Map<Seq<u8>, StoredValue>,
    first_at: u64,
    second_at: u64,
)
    requires
        lookup(entries, key, first_at).is_none(),
    ensures
        ({
            let incr = request_of(seq![command_name(Command::INCR), key]);
            let after = execute(incr, entries, first_at);
            &&& after.effect == Effect::Reply(Frame::Integer(1))
            &&& execute(incr, after.entries, second_at).effect == Effect::Reply(Frame::Integer(2))
        }),
{
    let words = seq![command_name(Command::INCR), key];
    lemma_command_names_upper();
    lemma_request_runs(Command::INCR, command_name(Command::INCR), words, entries, first_at);
    let after = execute(request_of(words), entries, first_at);
    lemma_request_runs(
        Command::INCR,
        command_name(Command::INCR),
        words,
        after.entries,
        second_at,
    );
}

/// `INCR` on text that is no numeral is refused, and the text stays.
pub proof fn law_incr_on_text(
    key: Seq<u8>,
    text: Seq<u8>,
    entries: Map<Seq<u8>, StoredValue>,
    now: u64,
)
    requires
        lookup(entries, key, now) matches Some(v) && v.shape == Shape::Text(text),
        crate::decimal::i64_of_decimal(text).is_none(),
    ensures
        ({
            let incr = request_of(seq![command_name(Command::INCR), key]);
            let after = execute(incr, entries, now);
            &&& after.effect == Effect::Reply(
                Frame::Error("ERR value is not an integer or out of range".spec_bytes()),
            )
            &&& after.entries == entries
        }),
{
    let words = seq![command_name(Command::INCR), key];
    lemma_command_names_upper();
    lemma_request_runs(Command::INCR, command_name(Command::INCR), words, entries, now);
}

/// `GET` on a key that holds a list is refused as an operation on the
/// wrong kind of value.
pub proof fn law_get_on_a_list(
    key: Seq<u8>,
    entries: Map<Seq<u8>, StoredValue>,
    now: u64,
)
    requires
        lookup(entries, key, now) matches Some(v) && v.shape is List,
    ensures
        execute(request_of(seq![command_name(Command::GET), key]), entries, now).effect
            == Effect::Reply(
            Frame::Error(
                "WRONGTYPE Operation against a key holding the wrong kind of value".spec_bytes(),
            ),
        ),
{
    let words = seq![command_name(Command::GET), key];
    lemma_command_names_upper();
    lemma_request_runs(Command::GET, command_name(Command::GET), words, entries, now);
}

/// `DEL` of a key that holds nothing answers 0.
pub proof fn law_del_missing(key: Seq<u8>, entries: Map<Seq<u8>, StoredValue>, now: u64)
    requires
        lookup(entries, key, now).is_none(),
    ensures
        execute(request_of(seq![command_name(Command::DEL), key]), entries, now).effect
            == Effect::Reply(Frame::Integer(0)),
{
    let words = seq![command_name(Command::DEL), key];
    lemma_command_names_upper();
    lemma_request_runs(Command::DEL, command_name(Command::DEL), words, entries, now);
    let keys = words.skip(1);
    assert(keys.drop_last() =~= Seq::<Seq<u8>>::empty());
    assert(keys.last() == key);
    assert(live_count(entries, keys.drop_last(), now) == 0);
}

} // verus!
