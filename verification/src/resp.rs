//! The protocol in text form: frames whose payloads are strings, read from
//! a stream of characters and written to a string.
//!
//! The grammar is that of the wire, character by character: a tag, a line
//! that ends in a carriage return and a line feed, and for a bulk string a
//! payload whose length is counted in the bytes of its UTF-8 form.
//!
//! The reader tells a stream that ends before its frame does from one that
//! cannot start a frame: the first is an unexpected end, whatever the
//! characters are that came, and the reader has then taken all of them;
//! the second is one of the other errors, and stays one whatever follows.

use crate::decimal::{decimal_text, i64_of_decimal, parse_i64, push_i64, push_usize};
use crate::frame::{MAX_ARRAY_LEN, MAX_BULK_LEN};
use crate::parser::{declared_len, read_len, Declared};
use std::iter::Peekable;
use std::str::Chars;
use vstd::prelude::*;
use vstd::string::StringExecFns;
use vstd::utf8::{encode_scalar, encode_utf8};

verus! {

/// A frame in text form.
#[derive(Debug, PartialEq)]
pub enum RespType {
    SimpleString(String),
    Error(String),
    Integer(i64),
    BulkString(String),
    Null,
    Array(Vec<RespType>),
}

/// The model of a frame in text form.
pub enum TextFrame {
    SimpleString(Seq<char>),
    Error(Seq<char>),
    Integer(int),
    BulkString(Seq<char>),
    Null,
    Array(Seq<TextFrame>),
}

impl View for RespType {
    type V = TextFrame;

    open spec fn view(&self) -> TextFrame
        decreases self,
    {
        match self {
            RespType::SimpleString(text) => TextFrame::SimpleString(text@),
            RespType::Error(text) => TextFrame::Error(text@),
            RespType::Integer(n) => TextFrame::Integer(*n as int),
            RespType::BulkString(text) => TextFrame::BulkString(text@),
            RespType::Null => TextFrame::Null,
            RespType::Array(items) => TextFrame::Array(
                Seq::new(
                    items.len() as nat,
                    |i: int|
                        if 0 <= i < items.len() {
                            items[i]@
                        } else {
                            TextFrame::Null
                        },
                ),
            ),
        }
    }
}

/// The models of a vector of frames, element by element.
pub open spec fn texts_view(items: Seq<RespType>) -> Seq<TextFrame> {
    Seq::new(items.len(), |i: int| items[i]@)
}

pub proof fn lemma_view_of_text_array(d: RespType)
    requires
        d is Array,
    ensures
        d@ == TextFrame::Array(texts_view(d->Array_0@)),
{
    assert(d@ is Array);
    assert(d@->Array_0.len() == d->Array_0.len());
    assert(d@->Array_0 =~= texts_view(d->Array_0@));
}

/// Why a stream of characters does not start with a frame.
///
/// `UnexpectedEnd` says that the stream ends before the frame does: more
/// characters may make it a frame. Every other error says that the
/// characters read so far cannot start a frame, whatever follows them.
#[derive(Clone, Copy, Debug, PartialEq, Eq, Structural)]
pub enum TextError {
    /// The first character is no tag.
    InvalidFormat,
    /// The line of an integer frame is no signed 64-bit decimal numeral.
    InvalidInteger,
    /// The length line of a bulk string is no length, or the length ends
    /// inside a character.
    InvalidBulkLength,
    /// The stream ends before the frame does: before its tag, inside a
    /// line or a payload, or inside a line break.
    UnexpectedEnd,
    /// A carriage return that another character than a line feed follows.
    InvalidLineEnding,
    /// A payload that other characters than a line break follow.
    ExpectedCrlf,
    /// The count line of an array is no count.
    InvalidArrayLength,
}

/// The message that goes with an error.
pub open spec fn error_text(e: TextError) -> Seq<char> {
    match e {
        TextError::InvalidFormat => "Invalid RESP format"@,
        TextError::InvalidInteger => "Invalid integer"@,
        TextError::InvalidBulkLength => "Invalid bulk string length"@,
        TextError::UnexpectedEnd => "Unexpected end of input"@,
        TextError::InvalidLineEnding => "Invalid line ending"@,
        TextError::ExpectedCrlf => "Expected CRLF"@,
        TextError::InvalidArrayLength => "Invalid array length"@,
    }
}

pub open spec fn is_tag_char(c: char) -> bool {
    c == '+' || c == '-' || c == ':' || c == '$' || c == '*'
}

/// The number of bytes that a character takes in UTF-8.
pub open spec fn char_width(c: char) -> int {
    encode_scalar(c as u32).len() as int
}

/// Why the reader gave up, and how many characters it had taken out of
/// the stream by then.
pub struct Stop {
    pub error: TextError,
    pub taken: int,
}

pub open spec fn stop(error: TextError, taken: int) -> Stop {
    Stop { error, taken }
}

/// `r` with `k` more characters counted.
pub open spec fn shifted(r: Result<int, Stop>, k: int) -> Result<int, Stop> {
    match r {
        Ok(n) => Ok(n + k),
        Err(st) => Err(stop(st.error, st.taken + k)),
    }
}

/// The length of the line at the front of `s`: the characters before the
/// first carriage return, which a line feed must follow. The reader gives
/// up at the end of the stream, or behind the character that follows the
/// carriage return in place of a line feed.
pub open spec fn line_len(s: Seq<char>) -> Result<int, Stop>
    decreases s.len(),
{
    if s.len() == 0 {
        Err(stop(TextError::UnexpectedEnd, 0))
    } else if s[0] == '\r' {
        if s.len() == 1 {
            Err(stop(TextError::UnexpectedEnd, 1))
        } else if s[1] == '\n' {
            Ok(0int)
        } else {
            Err(stop(TextError::InvalidLineEnding, 2))
        }
    } else {
        shifted(line_len(s.skip(1)), 1)
    }
}

/// The number of characters at the front of `s` that take `bytes` bytes
/// in UTF-8, all of them together. The reader gives up at the end of the
/// stream, or behind the character inside which the bytes end.
pub open spec fn payload_len(s: Seq<char>, bytes: int) -> Result<int, Stop>
    decreases s.len(),
{
    if bytes <= 0 {
        Ok(0int)
    } else if s.len() == 0 {
        Err(stop(TextError::UnexpectedEnd, 0))
    } else if char_width(s[0]) > bytes {
        Err(stop(TextError::InvalidBulkLength, 1))
    } else {
        shifted(payload_len(s.skip(1), bytes - char_width(s[0])), 1)
    }
}

/// Why the reader finds no line break at the front of `s`, where there
/// is none: the stream ends before the break does, or another character
/// stands where the carriage return or the line feed should. The reader
/// stops at the end of the stream or behind that character.
pub open spec fn break_stop(s: Seq<char>) -> Stop {
    if s.len() == 0 {
        stop(TextError::UnexpectedEnd, 0)
    } else if s[0] != '\r' {
        stop(TextError::ExpectedCrlf, 1)
    } else if s.len() == 1 {
        stop(TextError::UnexpectedEnd, 1)
    } else {
        stop(TextError::ExpectedCrlf, 2)
    }
}

/// The rest of a bulk string whose length line declares `line`: `s` starts
/// behind that line, and the counts include the `taken` characters before.
pub open spec fn read_bulk(s: Seq<char>, line: Seq<char>, taken: int) -> Result<
    (TextFrame, int),
    Stop,
> {
    match declared_len(encode_utf8(line), MAX_BULK_LEN as int) {
        Declared::Refused(_) => Err(stop(TextError::InvalidBulkLength, taken)),
        Declared::Absent => Ok((TextFrame::Null, taken)),
        Declared::Count(n) => match payload_len(s, n) {
            Err(st) => Err(stop(st.error, taken + st.taken)),
            Ok(len) => if s.len() >= len + 2 && s[len] == '\r' && s[len + 1] == '\n' {
                Ok((TextFrame::BulkString(s.take(len)), taken + len + 2))
            } else {
                Err(
                    stop(
                        break_stop(s.skip(len)).error,
                        taken + len + break_stop(s.skip(len)).taken,
                    ),
                )
            },
        },
    }
}

/// The frame at the front of `s`, and the number of characters it takes;
/// or why there is none, and how many characters the reader takes before
/// it gives up.
///
/// A stream that ends before the frame at its front does is an
/// `UnexpectedEnd`, wherever it ends, and the reader has then taken all of
/// it; every other error tells of characters that cannot start a frame
/// (see `text_laws`). A stream that does not start with a tag is left as
/// it is.
pub open spec fn read_frame(s: Seq<char>) -> Result<(TextFrame, int), Stop>
    decreases s.len(), 0nat,
{
    if s.len() == 0 {
        Err(stop(TextError::UnexpectedEnd, 0))
    } else if !is_tag_char(s[0]) {
        Err(stop(TextError::InvalidFormat, 0))
    } else {
        match line_len(s.skip(1)) {
            Err(st) => Err(stop(st.error, st.taken + 1)),
            Ok(n) => {
                let line = s.subrange(1, 1 + n);
                let taken = n + 3;
                if s[0] == '+' {
                    Ok((TextFrame::SimpleString(line), taken))
                } else if s[0] == '-' {
                    Ok((TextFrame::Error(line), taken))
                } else if s[0] == ':' {
                    match i64_of_decimal(encode_utf8(line)) {
                        Some(v) => Ok((TextFrame::Integer(v as int), taken)),
                        None => Err(stop(TextError::InvalidInteger, taken)),
                    }
                } else if s[0] == '$' {
                    read_bulk(s.skip(taken), line, taken)
                } else {
                    match declared_len(encode_utf8(line), MAX_ARRAY_LEN as int) {
                        Declared::Refused(_) => Err(stop(TextError::InvalidArrayLength, taken)),
                        Declared::Absent => Ok((TextFrame::Null, taken)),
                        Declared::Count(count) => {
                            proof {
                                lemma_line_len(s.skip(1));
                            }
                            match read_frames(s.skip(taken), count as nat) {
                                Err(st) => Err(stop(st.error, taken + st.taken)),
                                Ok((items, used)) => Ok((TextFrame::Array(items), taken + used)),
                            }
                        },
                    }
                }
            },
        }
    }
}

/// `count` frames in a row at the front of `s`.
pub open spec fn read_frames(s: Seq<char>, count: nat) -> Result<(Seq<TextFrame>, int), Stop>
    decreases s.len(), count + 1,
{
    if count == 0 {
        Ok((Seq::empty(), 0int))
    } else {
        match read_frame(s) {
            Err(st) => Err(st),
            Ok((first, used)) => {
                // A frame takes at least one character and no more than
                // there are (`lemma_read_bounds`): the first branch is
                // never taken.
                if used <= 0 || used > s.len() {
                    Err(stop(TextError::UnexpectedEnd, 0))
                } else {
                    more_frames(seq![first], used, read_frames(s.skip(used), (count - 1) as nat))
                }
            },
        }
    }
}

/// The frames `done`, which took `used` characters, followed by what
/// `rest` found.
pub open spec fn more_frames(
    done: Seq<TextFrame>,
    used: int,
    rest: Result<(Seq<TextFrame>, int), Stop>,
) -> Result<(Seq<TextFrame>, int), Stop> {
    match rest {
        Ok((more, k)) => Ok((done + more, used + k)),
        Err(st) => Err(stop(st.error, used + st.taken)),
    }
}

/// A line and its break lie within the stream, and so does the place
/// where the reader gives up.
pub proof fn lemma_line_len(s: Seq<char>)
    ensures
        line_len(s) matches Ok(n) ==> 0 <= n && n + 2 <= s.len() && s[n] == '\r' && s[n + 1]
            == '\n',
        line_len(s) matches Err(st) ==> 0 <= st.taken <= s.len(),
    decreases s.len(),
{
    if s.len() > 0 && s[0] != '\r' {
        lemma_line_len(s.skip(1));
        if let Ok(n) = line_len(s.skip(1)) {
            assert(s.skip(1)[n] == s[n + 1]);
            assert(s.skip(1)[n + 1] == s[n + 2]);
        }
    }
}

pub proof fn lemma_payload_len(s: Seq<char>, bytes: int)
    ensures
        payload_len(s, bytes) matches Ok(n) ==> 0 <= n <= s.len(),
        payload_len(s, bytes) matches Err(st) ==> 0 <= st.taken <= s.len(),
    decreases s.len(),
{
    if bytes > 0 && s.len() > 0 && char_width(s[0]) <= bytes {
        lemma_payload_len(s.skip(1), bytes - char_width(s[0]));
    }
}

/// A frame takes at least its tag and a line break, and never more
/// characters than the stream holds; nor does the reader where it gives up.
pub proof fn lemma_read_bounds(s: Seq<char>)
    ensures
        read_frame(s) matches Ok((_, n)) ==> 3 <= n <= s.len(),
        read_frame(s) matches Err(st) ==> 0 <= st.taken <= s.len(),
    decreases s.len(), 0nat,
{
    if s.len() > 0 && is_tag_char(s[0]) {
        lemma_line_len(s.skip(1));
        if let Ok(n) = line_len(s.skip(1)) {
            let line = s.subrange(1, 1 + n);
            let taken = n + 3;
            if s[0] == '$' {
                if let Declared::Count(len) = declared_len(encode_utf8(line), MAX_BULK_LEN as int) {
                    lemma_payload_len(s.skip(taken), len);
                }
            } else if s[0] == '*' {
                if let Declared::Count(count) = declared_len(
                    encode_utf8(line),
                    MAX_ARRAY_LEN as int,
                ) {
                    lemma_read_frames_bounds(s.skip(taken), count as nat);
                }
            }
        }
    }
}

pub proof fn lemma_read_frames_bounds(s: Seq<char>, count: nat)
    ensures
        read_frames(s, count) matches Ok((items, n)) ==> 0 <= n <= s.len() && items.len() == count,
        read_frames(s, count) matches Err(st) ==> 0 <= st.taken <= s.len(),
    decreases s.len(), count + 1,
{
    if count > 0 {
        lemma_read_bounds(s);
        if let Ok((first, used)) = read_frame(s) {
            lemma_read_frames_bounds(s.skip(used), (count - 1) as nat);
        }
    }
}

/// The text form of a frame.
pub open spec fn render(f: TextFrame) -> Seq<char>
    decreases f, 1nat,
{
    match f {
        TextFrame::SimpleString(text) => seq!['+'] + text + seq!['\r', '\n'],
        TextFrame::Error(text) => seq!['-'] + text + seq!['\r', '\n'],
        TextFrame::Integer(n) => seq![':'] + numeral(decimal_text(n)) + seq!['\r', '\n'],
        TextFrame::BulkString(text) => seq!['$'] + numeral(
            decimal_text(encode_utf8(text).len() as int),
        ) + seq!['\r', '\n'] + text + seq!['\r', '\n'],
        TextFrame::Null => seq!['$', '-', '1', '\r', '\n'],
        TextFrame::Array(items) => seq!['*'] + numeral(decimal_text(items.len() as int)) + seq![
            '\r',
            '\n',
        ] + render_all(items),
    }
}

/// The text forms of a sequence of frames, one after the other.
pub open spec fn render_all(items: Seq<TextFrame>) -> Seq<char>
    decreases items, 0nat,
{
    if items.len() == 0 {
        Seq::empty()
    } else {
        render(items[0]) + render_all(items.drop_first())
    }
}

pub proof fn lemma_render_all_push(items: Seq<TextFrame>, last: TextFrame)
    ensures
        render_all(items.push(last)) == render_all(items) + render(last),
    decreases items.len(),
{
    if items.len() == 0 {
        let single = items.push(last);
        assert(single.drop_first() =~= Seq::<TextFrame>::empty());
        assert(render_all(single.drop_first()) =~= Seq::<char>::empty());
        assert(render_all(single) == render(single[0]) + render_all(single.drop_first()));
        assert(render_all(items.push(last)) =~= render(last) + Seq::<char>::empty());
        assert(render_all(items) + render(last) =~= render(last));
        assert(render(last) + Seq::<char>::empty() =~= render(last));
    } else {
        lemma_render_all_push(items.drop_first(), last);
        assert(items.push(last).drop_first() =~= items.drop_first().push(last));
        assert(render(items[0]) + (render_all(items.drop_first()) + render(last)) =~= (render(
            items[0],
        ) + render_all(items.drop_first())) + render(last));
    }
}

/// The characters of a numeral given in bytes.
pub open spec fn numeral(bytes: Seq<u8>) -> Seq<char> {
    Seq::new(bytes.len(), |i: int| bytes[i] as char)
}

/// `std::iter::Peekable`, as a type whose inside the verifier does not see.
#[verifier::external_type_specification]
#[verifier::external_body]
#[verifier::reject_recursive_types(I)]
pub struct ExPeekable<I: Iterator>(Peekable<I>);

/// The characters that a stream has yet to give, first to last. Nothing is
/// known of it but what the functions below say of `Peekable`'s methods.
pub uninterp spec fn pending(chars: Peekable<Chars<'_>>) -> Seq<char>;

pub open spec fn first_of(s: Seq<char>) -> Option<char> {
    if s.len() > 0 {
        Some(s[0])
    } else {
        None
    }
}

pub open spec fn rest_of(s: Seq<char>) -> Seq<char> {
    if s.len() > 0 {
        s.skip(1)
    } else {
        s
    }
}

/// `Peekable::peek`: the next character, which stays in the stream.
#[verifier::external_body]
fn peek_char(chars: &mut Peekable<Chars<'_>>) -> (c: Option<char>)
    ensures
        c == first_of(pending(*old(chars))),
        pending(*final(chars)) == pending(*old(chars)),
{
    chars.peek().copied()
}

/// `Peekable::next`: takes the next character out of the stream.
#[verifier::external_body]
fn next_char(chars: &mut Peekable<Chars<'_>>) -> (c: Option<char>)
    ensures
        c == first_of(pending(*old(chars))),
        pending(*final(chars)) == rest_of(pending(*old(chars))),
{
    chars.next()
}

/// `String::push`: appends one character.
#[verifier::external_body]
fn push_char(text: &mut String, c: char)
    ensures
        final(text)@ == old(text)@.push(c),
{
    text.push(c);
}

/// Whether `r` is the error `e`, with its message.
pub open spec fn fails_with<T>(r: Result<T, String>, e: TextError) -> bool {
    r matches Err(message) && message@ == error_text(e)
}

fn failure<T>(e: TextError) -> (r: Result<T, String>)
    ensures
        fails_with(r, e),
{
    let message = match e {
        TextError::InvalidFormat => "Invalid RESP format",
        TextError::InvalidInteger => "Invalid integer",
        TextError::InvalidBulkLength => "Invalid bulk string length",
        TextError::UnexpectedEnd => "Unexpected end of input",
        TextError::InvalidLineEnding => "Invalid line ending",
        TextError::ExpectedCrlf => "Expected CRLF",
        TextError::InvalidArrayLength => "Invalid array length",
    };
    Err(message.to_owned())
}

fn width_of(c: char) -> (w: usize)
    ensures
        w == char_width(c),
        1 <= w <= 4,
{
    broadcast use vstd::utf8::char_is_scalar;

    let v = c as u32;
    assert(vstd::utf8::is_scalar(v));
    if v <= 0x7F {
        1
    } else if v <= 0x7FF {
        2
    } else if v <= 0xFFFF {
        3
    } else {
        4
    }
}

/// Whether `r` is the failure that `st` names, and the stream `after` is
/// the stream `before` without the characters taken by then.
pub open spec fn stops_as<T>(
    r: Result<T, String>,
    before: Seq<char>,
    after: Seq<char>,
    st: Stop,
) -> bool {
    fails_with(r, st.error) && after == before.skip(st.taken)
}

/// Reads a line and its break.
fn parse_line(chars: &mut Peekable<Chars<'_>>) -> (r: Result<String, String>)
    ensures
        match line_len(pending(*old(chars))) {
            Ok(n) => r matches Ok(line) && line@ == pending(*old(chars)).take(n) && pending(
                *final(chars),
            ) == pending(*old(chars)).skip(n + 2),
            Err(st) => stops_as(r, pending(*old(chars)), pending(*final(chars)), st),
        },
{
    let ghost all = pending(*chars);
    let mut line = String::new();
    let ghost mut k: int = 0;
    proof {
        assert(all.skip(0) =~= all);
        assert(all.take(0) =~= Seq::<char>::empty());
    }
    loop
        invariant
            0 <= k <= all.len(),
            all == pending(*old(chars)),
            pending(*chars) == all.skip(k),
            line@ == all.take(k),
            line_len(all) == shifted(line_len(all.skip(k)), k),
        decreases all.len() - k,
    {
        let ghost here = all.skip(k);
        match next_char(chars) {
            None => {
                return failure(TextError::UnexpectedEnd);
            },
            Some(c) => {
                proof {
                    assert(here.skip(1) =~= all.skip(k + 1));
                }
                if c == '\r' {
                    let follow = next_char(chars);
                    proof {
                        if here.len() > 1 {
                            assert(here.skip(1).skip(1) =~= all.skip(k + 2));
                            assert(here.skip(1)[0] == here[1]);
                        }
                    }
                    match follow {
                        Some(d) => {
                            if d == '\n' {
                                return Ok(line);
                            } else {
                                return failure(TextError::InvalidLineEnding);
                            }
                        },
                        None => {
                            return failure(TextError::UnexpectedEnd);
                        },
                    }
                } else {
                    push_char(&mut line, c);
                    proof {
                        assert(all.take(k + 1) =~= all.take(k).push(c));
                        k = k + 1;
                    }
                }
            },
        }
    }
}

/// Takes a line break out of the stream.
fn consume_crlf(chars: &mut Peekable<Chars<'_>>) -> (r: Result<(), String>)
    ensures
        ({
            let s = pending(*old(chars));
            if s.len() >= 2 && s[0] == '\r' && s[1] == '\n' {
                r is Ok && pending(*final(chars)) == s.skip(2)
            } else {
                stops_as(r, s, pending(*final(chars)), break_stop(s))
            }
        }),
{
    let ghost s = pending(*chars);
    proof {
        assert(s.skip(0) =~= s);
    }
    match next_char(chars) {
        Some(c) => {
            if c != '\r' {
                return failure(TextError::ExpectedCrlf);
            }
        },
        None => {
            return failure(TextError::UnexpectedEnd);
        },
    }
    let follow = next_char(chars);
    proof {
        if s.len() > 1 {
            assert(s.skip(1).skip(1) =~= s.skip(2));
            assert(s.skip(1)[0] == s[1]);
        }
    }
    match follow {
        Some(d) => {
            if d == '\n' {
                Ok(())
            } else {
                failure(TextError::ExpectedCrlf)
            }
        },
        None => failure(TextError::UnexpectedEnd),
    }
}

/// Whether the reader's answer `r`, and the stream it left, are what
/// `expected` says of the stream `before`: the frame with the stream behind
/// it, or the failure with the stream where the reader gave up.
pub open spec fn reads_as(
    r: Result<RespType, String>,
    before: Seq<char>,
    after: Seq<char>,
    expected: Result<(TextFrame, int), Stop>,
) -> bool {
    match expected {
        Ok((frame, n)) => r matches Ok(value) && value@ == frame && after == before.skip(n),
        Err(st) => stops_as(r, before, after, st),
    }
}

/// Takes the tag and the line behind it out of the stream.
fn parse_tagged_line(chars: &mut Peekable<Chars<'_>>) -> (r: Result<String, String>)
    requires
        pending(*old(chars)).len() > 0,
    ensures
        match line_len(pending(*old(chars)).skip(1)) {
            Ok(n) => r matches Ok(line) && line@ == pending(*old(chars)).subrange(1, 1 + n)
                && pending(*final(chars)) == pending(*old(chars)).skip(n + 3) && 3 <= n + 3
                <= pending(*old(chars)).len(),
            Err(st) => stops_as(
                r,
                pending(*old(chars)),
                pending(*final(chars)),
                stop(st.error, st.taken + 1),
            ),
        },
{
    let ghost s = pending(*chars);
    next_char(chars);
    proof {
        lemma_line_len(s.skip(1));
    }
    let r = parse_line(chars);
    proof {
        match line_len(s.skip(1)) {
            Ok(n) => {
                assert(s.skip(1).take(n) =~= s.subrange(1, 1 + n));
                assert(s.skip(1).skip(n + 2) =~= s.skip(n + 3));
            },
            Err(st) => {
                assert(s.skip(1).skip(st.taken) =~= s.skip(st.taken + 1));
            },
        }
    }
    r
}

fn parse_simple_string(chars: &mut Peekable<Chars<'_>>) -> (r: Result<RespType, String>)
    requires
        pending(*old(chars)).len() > 0,
        pending(*old(chars))[0] == '+',
    ensures
        reads_as(
            r,
            pending(*old(chars)),
            pending(*final(chars)),
            read_frame(pending(*old(chars))),
        ),
{
    match parse_tagged_line(chars) {
        Ok(line) => Ok(RespType::SimpleString(line)),
        Err(message) => Err(message),
    }
}

fn parse_error(chars: &mut Peekable<Chars<'_>>) -> (r: Result<RespType, String>)
    requires
        pending(*old(chars)).len() > 0,
        pending(*old(chars))[0] == '-',
    ensures
        reads_as(
            r,
            pending(*old(chars)),
            pending(*final(chars)),
            read_frame(pending(*old(chars))),
        ),
{
    match parse_tagged_line(chars) {
        Ok(line) => Ok(RespType::Error(line)),
        Err(message) => Err(message),
    }
}

fn parse_integer(chars: &mut Peekable<Chars<'_>>) -> (r: Result<RespType, String>)
    requires
        pending(*old(chars)).len() > 0,
        pending(*old(chars))[0] == ':',
    ensures
        reads_as(
            r,
            pending(*old(chars)),
            pending(*final(chars)),
            read_frame(pending(*old(chars))),
        ),
{
    match parse_tagged_line(chars) {
        Ok(line) => match parse_i64(line.as_str().as_bytes()) {
            Some(value) => Ok(RespType::Integer(value)),
            None => failure(TextError::InvalidInteger),
        },
        Err(message) => Err(message),
    }
}

fn parse_bulk_string(chars: &mut Peekable<Chars<'_>>) -> (r: Result<RespType, String>)
    requires
        pending(*old(chars)).len() > 0,
        pending(*old(chars))[0] == '$',
    ensures
        reads_as(
            r,
            pending(*old(chars)),
            pending(*final(chars)),
            read_frame(pending(*old(chars))),
        ),
{
    let ghost s = pending(*chars);
    let line = match parse_tagged_line(chars) {
        Ok(line) => line,
        Err(message) => {
            return Err(message);
        },
    };
    let ghost n = line_len(s.skip(1))->Ok_0;
    let ghost taken = n + 3;
    let ghost body = s.skip(taken);
    let len = match read_len(line.as_str().as_bytes(), MAX_BULK_LEN) {
        Err(_) => {
            return failure(TextError::InvalidBulkLength);
        },
        Ok(None) => {
            return Ok(RespType::Null);
        },
        Ok(Some(len)) => len,
    };
    let mut value = String::new();
    let mut remaining: usize = len;
    let ghost mut k: int = 0;
    proof {
        assert(body.skip(0) =~= body);
        assert(body.take(0) =~= Seq::<char>::empty());
    }
    while remaining > 0
        invariant
            0 <= k <= body.len(),
            remaining <= len,
            s == pending(*old(chars)),
            s.len() > 0 && s[0] == '$',
            line_len(s.skip(1)) == Ok::<int, Stop>(n),
            taken == n + 3,
            3 <= taken <= s.len(),
            body == s.skip(taken),
            line@ == s.subrange(1, 1 + n),
            declared_len(encode_utf8(line@), MAX_BULK_LEN as int) == Declared::Count(len as int),
            pending(*chars) == body.skip(k),
            value@ == body.take(k),
            payload_len(body, len as int) == shifted(
                payload_len(body.skip(k), remaining as int),
                k,
            ),
        decreases body.len() - k,
    {
        proof {
            assert(s.skip(taken).skip(k) =~= s.skip(taken + k));
        }
        match next_char(chars) {
            None => {
                return failure(TextError::UnexpectedEnd);
            },
            Some(c) => {
                proof {
                    assert(body.skip(k).skip(1) =~= body.skip(k + 1));
                    assert(s.skip(taken).skip(k + 1) =~= s.skip(taken + k + 1));
                }
                let w = width_of(c);
                if w > remaining {
                    return failure(TextError::InvalidBulkLength);
                }
                push_char(&mut value, c);
                remaining -= w;
                proof {
                    assert(body.take(k + 1) =~= body.take(k).push(c));
                    k = k + 1;
                }
            },
        }
    }
    let ghost behind = body.skip(k);
    proof {
        lemma_payload_len(body, len as int);
        assert(s.skip(taken).skip(k) =~= s.skip(taken + k));
        if behind.len() >= 1 {
            assert(behind[0] == body[k]);
        }
        if behind.len() >= 2 {
            assert(behind[1] == body[k + 1]);
        }
        if behind.len() >= 2 {
            assert(behind.skip(2) =~= s.skip(taken + k + 2));
        }
        assert(behind.skip(break_stop(behind).taken) =~= s.skip(
            taken + k + break_stop(behind).taken,
        ));
    }
    match consume_crlf(chars) {
        Ok(_) => Ok(RespType::BulkString(value)),
        Err(message) => Err(message),
    }
}

fn parse_array(chars: &mut Peekable<Chars<'_>>) -> (r: Result<RespType, String>)
    requires
        pending(*old(chars)).len() > 0,
        pending(*old(chars))[0] == '*',
    ensures
        reads_as(
            r,
            pending(*old(chars)),
            pending(*final(chars)),
            read_frame(pending(*old(chars))),
        ),
    decreases pending(*old(chars)).len(), 0nat,
{
    let ghost s = pending(*chars);
    let line = match parse_tagged_line(chars) {
        Ok(line) => line,
        Err(message) => {
            return Err(message);
        },
    };
    let ghost n = line_len(s.skip(1))->Ok_0;
    let ghost taken = n + 3;
    let ghost body = s.skip(taken);
    let count = match read_len(line.as_str().as_bytes(), MAX_ARRAY_LEN) {
        Err(_) => {
            return failure(TextError::InvalidArrayLength);
        },
        Ok(None) => {
            return Ok(RespType::Null);
        },
        Ok(Some(count)) => count,
    };
    let mut elements: Vec<RespType> = Vec::new();
    let mut i: usize = 0;
    let ghost mut used: int = 0;
    proof {
        assert(body.skip(0) =~= body);
        assert(texts_view(elements@) =~= Seq::<TextFrame>::empty());
        lemma_more_nothing(read_frames(body, count as nat));
    }
    while i < count
        invariant
            i <= count,
            0 <= used <= body.len(),
            body == s.skip(taken),
            3 <= taken <= s.len(),
            s == pending(*old(chars)),
            s.len() > 0 && s[0] == '*',
            line_len(s.skip(1)) == Ok::<int, Stop>(n),
            taken == n + 3,
            line@ == s.subrange(1, 1 + n),
            declared_len(encode_utf8(line@), MAX_ARRAY_LEN as int) == Declared::Count(
                count as int,
            ),
            pending(*chars) == body.skip(used),
            elements@.len() == i,
            read_frames(body, count as nat) == more_frames(
                texts_view(elements@),
                used,
                read_frames(body.skip(used), (count - i) as nat),
            ),
        decreases count - i,
    {
        let ghost here = body.skip(used);
        let ghost done = texts_view(elements@);
        proof {
            lemma_read_bounds(here);
            assert(s.skip(taken).skip(used) =~= s.skip(taken + used));
        }
        match deserialize(chars) {
            Err(message) => {
                proof {
                    let st = read_frame(here)->Err_0;
                    assert(here.skip(st.taken) =~= s.skip(taken + used + st.taken));
                }
                return Err(message);
            },
            Ok(element) => {
                proof {
                    let step = read_frame(here)->Ok_0.1;
                    let after = read_frames(here.skip(step), (count - i - 1) as nat);
                    assert(here.skip(step) =~= body.skip(used + step));
                    assert(texts_view(elements@.push(element)) =~= done + seq![element@]);
                    lemma_more_twice(done, used, seq![element@], step, after);
                    used = used + step;
                }
                elements.push(element);
            },
        }
        i += 1;
    }
    proof {
        assert(texts_view(elements@) + Seq::<TextFrame>::empty() =~= texts_view(elements@));
        assert(s.skip(taken).skip(used) =~= s.skip(taken + used));
        lemma_view_of_text_array(RespType::Array(elements));
    }
    Ok(RespType::Array(elements))
}

proof fn lemma_more_nothing(rest: Result<(Seq<TextFrame>, int), Stop>)
    ensures
        more_frames(Seq::empty(), 0, rest) == rest,
{
    if let Ok((more, k)) = rest {
        assert(Seq::<TextFrame>::empty() + more =~= more);
    }
}

proof fn lemma_more_twice(
    a: Seq<TextFrame>,
    m: int,
    b: Seq<TextFrame>,
    n: int,
    rest: Result<(Seq<TextFrame>, int), Stop>,
)
    ensures
        more_frames(a, m, more_frames(b, n, rest)) == more_frames(a + b, m + n, rest),
{
    if let Ok((more, k)) = rest {
        assert(a + (b + more) =~= (a + b) + more);
    }
}

/// Reads one frame from the front of `chars`.
///
/// On success the stream stands behind the frame. On failure the error
/// carries its message, and the stream stands where the reader gave up.
/// A stream that ends before the frame does gives "Unexpected end of
/// input" and is used up; a stream whose first character is no tag gives
/// "Invalid RESP format" and is left as it is.
pub fn deserialize(chars: &mut Peekable<Chars<'_>>) -> (r: Result<RespType, String>)
    ensures
        reads_as(
            r,
            pending(*old(chars)),
            pending(*final(chars)),
            read_frame(pending(*old(chars))),
        ),
    decreases pending(*old(chars)).len(), 1nat,
{
    proof {
        assert(pending(*chars).skip(0) =~= pending(*chars));
    }
    match peek_char(chars) {
        Some(c) => {
            if c == '+' {
                parse_simple_string(chars)
            } else if c == '-' {
                parse_error(chars)
            } else if c == ':' {
                parse_integer(chars)
            } else if c == '$' {
                parse_bulk_string(chars)
            } else if c == '*' {
                parse_array(chars)
            } else {
                failure(TextError::InvalidFormat)
            }
        },
        None => failure(TextError::UnexpectedEnd),
    }
}

fn push_numeral(out: &mut String, bytes: &Vec<u8>)
    ensures
        final(out)@ == old(out)@ + numeral(bytes@),
{
    let mut i: usize = 0;
    assert(numeral(bytes@.take(0)) =~= Seq::<char>::empty());
    while i < bytes.len()
        invariant
            i <= bytes.len(),
            out@ == old(out)@ + numeral(bytes@.take(i as int)),
        decreases bytes.len() - i,
    {
        push_char(out, bytes[i] as char);
        assert(numeral(bytes@.take(i + 1)) =~= numeral(bytes@.take(i as int)).push(
            bytes@[i as int] as char,
        ));
        i += 1;
    }
    assert(bytes@.take(bytes.len() as int) =~= bytes@);
}

fn push_break(out: &mut String)
    ensures
        final(out)@ == old(out)@ + seq!['\r', '\n'],
{
    push_char(out, '\r');
    push_char(out, '\n');
    assert(final(out)@ =~= old(out)@ + seq!['\r', '\n']);
}

/// Appends the text form of `resp` to `out`.
pub fn write_text(resp: &RespType, out: &mut String)
    ensures
        final(out)@ == old(out)@ + render(resp@),
    decreases resp,
{
    match resp {
        RespType::SimpleString(text) => {
            push_char(out, '+');
            out.append(text.as_str());
            push_break(out);
            assert(final(out)@ =~= old(out)@ + render(resp@));
        },
        RespType::Error(text) => {
            push_char(out, '-');
            out.append(text.as_str());
            push_break(out);
            assert(final(out)@ =~= old(out)@ + render(resp@));
        },
        RespType::Integer(n) => {
            push_char(out, ':');
            let mut digits: Vec<u8> = Vec::new();
            push_i64(&mut digits, *n);
            assert(digits@ =~= decimal_text(*n as int));
            push_numeral(out, &digits);
            push_break(out);
            assert(final(out)@ =~= old(out)@ + render(resp@));
        },
        RespType::BulkString(text) => {
            push_char(out, '$');
            let mut digits: Vec<u8> = Vec::new();
            push_usize(&mut digits, text.as_str().as_bytes().len());
            assert(digits@ =~= decimal_text(encode_utf8(text@).len() as int));
            push_numeral(out, &digits);
            push_break(out);
            out.append(text.as_str());
            push_break(out);
            assert(final(out)@ =~= old(out)@ + render(resp@));
        },
        RespType::Null => {
            push_char(out, '$');
            push_char(out, '-');
            push_char(out, '1');
            push_break(out);
            assert(final(out)@ =~= old(out)@ + render(resp@));
        },
        RespType::Array(items) => {
            push_char(out, '*');
            let mut digits: Vec<u8> = Vec::new();
            push_usize(&mut digits, items.len());
            assert(digits@ =~= decimal_text(items.len() as int));
            push_numeral(out, &digits);
            push_break(out);
            let ghost header = out@;
            let ghost models = texts_view(items@);
            proof {
                lemma_view_of_text_array(*resp);
                assert(models.take(0) =~= Seq::<TextFrame>::empty());
                assert(header + render_all(models.take(0)) =~= header);
            }
            let mut i: usize = 0;
            while i < items.len()
                invariant
                    i <= items.len(),
                    *resp == RespType::Array(*items),
                    models == texts_view(items@),
                    out@ == header + render_all(models.take(i as int)),
                decreases items.len() - i,
            {
                assert(decreases_to!(*resp => resp->Array_0));
                assert(decreases_to!(*items => items[i as int]));
                write_text(&items[i], out);
                proof {
                    assert(models.take(i + 1) =~= models.take(i as int).push(models[i as int]));
                    lemma_render_all_push(models.take(i as int), models[i as int]);
                    assert(out@ =~= header + render_all(models.take(i + 1)));
                }
                i += 1;
            }
            proof {
                assert(models.take(items.len() as int) =~= models);
                assert(final(out)@ =~= old(out)@ + render(resp@));
            }
        },
    }
}

/// The text form of `resp`. It never fails.
pub fn serialize(resp: &RespType) -> (r: Result<String, String>)
    ensures
        r matches Ok(text) && text@ == render(resp@),
{
    let mut out = String::new();
    write_text(resp, &mut out);
    assert(out@ =~= render(resp@));
    Ok(out)
}

} // verus!
