//! One connection's turn: from the bytes received so far to the replies
//! that are due, in the order of the requests.

use crate::clock::current_time_ms;
use crate::command::{execute, handle_command, Action, Effect};
use crate::frame::{encode, write_frame, Frame, RespData};
use crate::parser::{lemma_parse_bounds, parse_frame, parse_resp, ParseError, Parsed};
use crate::store::{lists_all, with_entries, RedisStore, RedisValue, StoredValue};
use bytes::{Buf, BytesMut};
use vstd::prelude::*;
use vstd::slice::slice_to_vec;
use vstd::string::StringSliceAdditionalSpecFns;

verus! {

/// The most bytes a connection may hold without a whole frame among them
/// (64 MiB).
pub const MAX_BUFFER_LEN: usize = 67108864;

/// Why a turn ended.
pub enum Pause {
    /// The buffer holds no whole frame: more bytes are needed.
    NeedMore,
    /// A `SAVE` was reached: a snapshot is to be written before the turn
    /// goes on.
    Save,
    /// The stream cannot be trusted any more: the connection is to be closed.
    Close,
}

/// What a turn comes to.
pub struct Run {
    /// The replies, in the order of the requests, in their wire form.
    pub output: Seq<u8>,
    /// The bytes that were not consumed.
    pub rest: Seq<u8>,
    pub entries: Map<Seq<u8>, StoredValue>,
    pub pause: Pause,
}

/// How a turn ended, with what the caller needs to go on.
pub enum Next {
    NeedMore,
    /// Write these entries to the snapshot file, send what
    /// `command::save_reply` makes of the result, then take another turn.
    Save(Vec<(Vec<u8>, RedisValue)>),
    Close,
}

impl View for Next {
    type V = Pause;

    open spec fn view(&self) -> Pause {
        match self {
            Next::NeedMore => Pause::NeedMore,
            Next::Save(_) => Pause::Save,
            Next::Close => Pause::Close,
        }
    }
}

/// What a turn hands to its caller.
pub struct Drained {
    /// The bytes to send, all of them before anything else is done.
    pub output: Vec<u8>,
    pub next: Next,
}

pub open spec fn protocol_error_text(e: ParseError) -> Seq<u8> {
    match e {
        ParseError::BadPrefix => "ERR protocol error: bad prefix".spec_bytes(),
        ParseError::BadLength => "ERR protocol error: bad length".spec_bytes(),
        ParseError::TruncatedInteger => "ERR protocol error: truncated integer".spec_bytes(),
        ParseError::Oversize => "ERR protocol error: oversize frame".spec_bytes(),
    }
}

/// The turn `later` with `output` sent before it.
pub open spec fn after_output(output: Seq<u8>, later: Run) -> Run {
    Run { output: output + later.output, rest: later.rest, entries: later.entries, pause: later.pause }
}

/// A turn on `buffer` at time `now`.
///
/// Each whole frame at the front is carried out and answered, one after
/// the other, until the buffer holds a proper prefix of a frame only
/// (`NeedMore`; `Close` with an error reply where that prefix has reached
/// `MAX_BUFFER_LEN` bytes), a frame that cannot be (`Close`, after an error
/// reply), or a `SAVE`, which is consumed and left to the caller.
pub open spec fn serve(buffer: Seq<u8>, entries: Map<Seq<u8>, StoredValue>, now: u64) -> Run
    decreases buffer.len(),
{
    match parse_frame(buffer) {
        Parsed::Incomplete => if buffer.len() >= MAX_BUFFER_LEN {
            Run {
                output: encode(Frame::Error(protocol_error_text(ParseError::Oversize))),
                rest: buffer,
                entries,
                pause: Pause::Close,
            }
        } else {
            Run { output: Seq::empty(), rest: buffer, entries, pause: Pause::NeedMore }
        },
        Parsed::Malformed(e) => Run {
            output: encode(Frame::Error(protocol_error_text(e))),
            rest: buffer,
            entries,
            pause: Pause::Close,
        },
        Parsed::Complete(request, used) => {
            proof {
                lemma_parse_bounds(buffer);
            }
            let outcome = execute(request, entries, now);
            match outcome.effect {
                Effect::Save => Run {
                    output: Seq::empty(),
                    rest: buffer.skip(used),
                    entries: outcome.entries,
                    pause: Pause::Save,
                },
                Effect::Reply(frame) => after_output(
                    encode(frame),
                    serve(buffer.skip(used), outcome.entries, now),
                ),
            }
        },
    }
}

/// `bytes::BytesMut`, as a type whose inside the verifier does not see.
#[verifier::external_type_specification]
#[verifier::external_body]
pub struct ExBytesMut(BytesMut);

/// The bytes that a buffer holds, first to last. Nothing is known of it but
/// what the functions below say of `BytesMut`'s methods.
pub uninterp spec fn buffered(b: BytesMut) -> Seq<u8>;

/// `BytesMut::as_ref`: the bytes that the buffer holds, as a slice.
#[verifier::external_body]
fn buffer_bytes(buffer: &BytesMut) -> (bytes: &[u8])
    ensures
        bytes@ == buffered(*buffer),
{
    buffer.as_ref()
}

/// `Buf::advance` on a `BytesMut`: drops the first `count` bytes. It
/// panics where the buffer holds fewer.
#[verifier::external_body]
fn buffer_advance(buffer: &mut BytesMut, count: usize)
    requires
        count <= buffered(*old(buffer)).len(),
    ensures
        buffered(*final(buffer)) == buffered(*old(buffer)).skip(count as int),
{
    buffer.advance(count);
}

fn protocol_error(e: ParseError) -> (frame: RespData)
    ensures
        frame@ == Frame::Error(protocol_error_text(e)),
{
    let text = match e {
        ParseError::BadPrefix => "ERR protocol error: bad prefix",
        ParseError::BadLength => "ERR protocol error: bad length",
        ParseError::TruncatedInteger => "ERR protocol error: truncated integer",
        ParseError::Oversize => "ERR protocol error: oversize frame",
    };
    RespData::Error(slice_to_vec(text.as_bytes()))
}

/// Whether a turn's result and the state it left are what `run` says.
pub open spec fn turn_is(
    drained: Drained,
    rest: Seq<u8>,
    before: crate::store::StoreState,
    after: crate::store::StoreState,
    run: Run,
) -> bool {
    &&& drained.output@ == run.output
    &&& drained.next@ == run.pause
    &&& rest == run.rest
    &&& after == with_entries(before, run.entries)
    &&& drained.next matches Next::Save(saved) ==> lists_all(saved@, after.entries)
}

/// Takes one turn on `buffer` at time `now`: carries out the requests at
/// its front, drops their bytes from the buffer, and hands out the replies.
pub fn drain_at(buffer: &mut BytesMut, store: &mut RedisStore, now: u64) -> (drained: Drained)
    ensures
        turn_is(
            drained,
            buffered(*final(buffer)),
            old(store)@,
            final(store)@,
            serve(buffered(*old(buffer)), old(store)@.entries, now),
        ),
{
    let ghost whole = serve(buffered(*buffer), store@.entries, now);
    let mut output: Vec<u8> = Vec::new();
    proof {
        assert(store@ == with_entries(store@, store@.entries));
        assert(after_output(output@, whole) == whole) by {
            assert(output@ + whole.output =~= whole.output);
        }
    }
    loop
        invariant
            whole == serve(buffered(*old(buffer)), old(store)@.entries, now),
            whole == after_output(output@, serve(buffered(*buffer), store@.entries, now)),
            store@ == with_entries(old(store)@, store@.entries),
        decreases buffered(*buffer).len(),
    {
        let ghost bytes = buffered(*buffer);
        let ghost entries = store@.entries;
        let parsed = parse_resp(buffer_bytes(buffer));
        match parsed {
            Ok(None) => {
                if buffer_bytes(buffer).len() >= MAX_BUFFER_LEN {
                    let ghost sent = output@;
                    write_frame(&protocol_error(ParseError::Oversize), &mut output);
                    return Drained { output, next: Next::Close };
                }
                proof {
                    assert(output@ + Seq::<u8>::empty() =~= output@);
                }
                return Drained { output, next: Next::NeedMore };
            },
            Err(e) => {
                write_frame(&protocol_error(e), &mut output);
                return Drained { output, next: Next::Close };
            },
            Ok(Some((consumed, request))) => {
                buffer_advance(buffer, consumed);
                match handle_command(&request, store, now) {
                    Action::Reply(frame) => {
                        let ghost sent = output@;
                        write_frame(&frame, &mut output);
                        proof {
                            let later = serve(bytes.skip(consumed as int), store@.entries, now);
                            assert(sent + (encode(frame@) + later.output) =~= (sent + encode(
                                frame@,
                            )) + later.output);
                        }
                    },
                    Action::Save(saved) => {
                        proof {
                            assert(output@ + Seq::<u8>::empty() =~= output@);
                        }
                        return Drained { output, next: Next::Save(saved) };
                    },
                }
            },
        }
    }
}

/// Takes one turn on `buffer` at the time that the clock shows.
pub fn drain(buffer: &mut BytesMut, store: &mut RedisStore) -> (drained: Drained)
    ensures
        exists|now: u64|
            turn_is(
                drained,
                buffered(*final(buffer)),
                old(store)@,
                final(store)@,
                #[trigger] serve(buffered(*old(buffer)), old(store)@.entries, now),
            ),
{
    let now = current_time_ms();
    drain_at(buffer, store, now)
}

} // verus!
