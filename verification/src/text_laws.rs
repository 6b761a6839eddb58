//! What holds of the text form as a whole: the reader reads back what the
//! writer writes, looks at no character behind the frame it returns, and
//! tells a stream that was cut short from one that cannot be a frame.

use crate::decimal::{
    decimal_text, is_digit, lemma_decimal_text_bytes, lemma_decimal_text_value, MINUS_SIGN,
};
use crate::frame::{MAX_ARRAY_LEN, MAX_BULK_LEN};
use crate::parser::{declared_len, Declared};
use crate::resp::{
    break_stop, char_width, is_tag_char, lemma_line_len, lemma_payload_len, lemma_read_bounds,
    lemma_read_frames_bounds, line_len, numeral, payload_len, read_bulk, read_frame, read_frames,
    render, render_all, stop, Stop, TextError, TextFrame,
};
use vstd::prelude::*;
use vstd::utf8::{encode_scalar, encode_utf8, is_ascii_chars, is_ascii_chars_encode_utf8};

verus! {

/// The frames that the text form can carry faithfully: lines without
/// carriage returns, integers of 64 bits, payloads and arrays within the
/// codec's limits.
pub open spec fn text_wf(f: TextFrame) -> bool
    decreases f,
{
    match f {
        TextFrame::SimpleString(text) => !text.contains('\r'),
        TextFrame::Error(text) => !text.contains('\r'),
        TextFrame::Integer(n) => i64::MIN <= n <= i64::MAX,
        TextFrame::BulkString(text) => encode_utf8(text).len() <= MAX_BULK_LEN,
        TextFrame::Null => true,
        TextFrame::Array(items) => items.len() <= MAX_ARRAY_LEN && forall|i: int|
            0 <= i < items.len() ==> text_wf(#[trigger] items[i]),
    }
}

/// A text without carriage returns, then a line break: the line is the text.
proof fn lemma_line_of(text: Seq<char>, rest: Seq<char>)
    requires
        !text.contains('\r'),
    ensures
        line_len(text + seq!['\r', '\n'] + rest) == Ok::<int, Stop>(text.len() as int),
    decreases text.len(),
{
    let s = text + seq!['\r', '\n'] + rest;
    if text.len() == 0 {
        assert(s[0] == '\r' && s[1] == '\n');
    } else {
        assert(s[0] == text[0]);
        assert(text.contains(text[0]));
        let shorter = text.skip(1);
        assert forall|c: char| shorter.contains(c) implies text.contains(c) by {
            let i = choose|i: int| 0 <= i < shorter.len() && shorter[i] == c;
            assert(text[i + 1] == c);
        }
        assert(s.skip(1) =~= shorter + seq!['\r', '\n'] + rest);
        lemma_line_of(shorter, rest);
    }
}

proof fn lemma_line_ignores_what_follows(s: Seq<char>, t: Seq<char>)
    requires
        line_len(s) is Ok,
    ensures
        line_len(s + t) == line_len(s),
    decreases s.len(),
{
    let w = s + t;
    assert(w[0] == s[0]);
    if s[0] == '\r' {
        assert(w[1] == s[1]);
    } else {
        assert(w.skip(1) =~= s.skip(1) + t);
        lemma_line_ignores_what_follows(s.skip(1), t);
    }
}

proof fn lemma_payload_ignores_what_follows(s: Seq<char>, t: Seq<char>, bytes: int)
    requires
        payload_len(s, bytes) is Ok,
    ensures
        payload_len(s + t, bytes) == payload_len(s, bytes),
    decreases s.len(),
{
    if bytes > 0 {
        let w = s + t;
        assert(w[0] == s[0]);
        assert(w.skip(1) =~= s.skip(1) + t);
        lemma_payload_ignores_what_follows(s.skip(1), t, bytes - char_width(s[0]));
    }
}

/// A text, then anything: the characters that take the bytes of the text
/// are the text.
proof fn lemma_payload_of(text: Seq<char>, rest: Seq<char>)
    ensures
        payload_len(text + rest, encode_utf8(text).len() as int) == Ok::<int, Stop>(
            text.len() as int,
        ),
    decreases text.len(),
{
    broadcast use vstd::utf8::char_is_scalar;

    let s = text + rest;
    if text.len() == 0 {
    } else {
        assert(s[0] == text[0]);
        let first = text[0];
        vstd::utf8::char_is_scalar(first);
        assert(encode_scalar(first as u32).len() >= 1);
        assert(s.skip(1) =~= text.drop_first() + rest);
        assert(encode_utf8(text).len() == char_width(text[0]) + encode_utf8(
            text.drop_first(),
        ).len());
        lemma_payload_of(text.drop_first(), rest);
    }
}

/// The reader looks at no character behind the frame it returns.
pub proof fn law_read_ignores_what_follows(s: Seq<char>, t: Seq<char>)
    requires
        read_frame(s) is Ok,
    ensures
        read_frame(s + t) == read_frame(s),
    decreases s.len(), 0nat,
{
    let w = s + t;
    assert(w[0] == s[0]);
    assert(w.skip(1) =~= s.skip(1) + t);
    lemma_line_len(s.skip(1));
    lemma_line_ignores_what_follows(s.skip(1), t);
    let n = line_len(s.skip(1))->Ok_0;
    let line = s.subrange(1, 1 + n);
    let taken = n + 3;
    assert(w.subrange(1, 1 + n) =~= line);
    assert(w.skip(taken) =~= s.skip(taken) + t);
    if s[0] == '$' {
        if let Declared::Count(len) = declared_len(encode_utf8(line), MAX_BULK_LEN as int) {
            let body = s.skip(taken);
            lemma_payload_len(body, len);
            lemma_payload_ignores_what_follows(body, t, len);
            let k = payload_len(body, len)->Ok_0;
            assert((body + t)[k] == body[k]);
            assert((body + t)[k + 1] == body[k + 1]);
            assert((body + t).take(k) =~= body.take(k));
        }
    } else if s[0] == '*' {
        if let Declared::Count(count) = declared_len(encode_utf8(line), MAX_ARRAY_LEN as int) {
            lemma_frames_ignore_what_follows(s.skip(taken), t, count as nat);
        }
    }
}

proof fn lemma_frames_ignore_what_follows(s: Seq<char>, t: Seq<char>, count: nat)
    requires
        read_frames(s, count) is Ok,
    ensures
        read_frames(s + t, count) == read_frames(s, count),
    decreases s.len(), count + 1,
{
    if count > 0 {
        lemma_read_bounds(s);
        law_read_ignores_what_follows(s, t);
        let used = read_frame(s)->Ok_0.1;
        assert((s + t).skip(used) =~= s.skip(used) + t);
        lemma_frames_ignore_what_follows(s.skip(used), t, (count - 1) as nat);
    }
}

/// The characters of a numeral are ASCII, none of them a carriage return,
/// and their bytes are the numeral.
proof fn lemma_numeral(n: int)
    ensures
        !numeral(decimal_text(n)).contains('\r'),
        encode_utf8(numeral(decimal_text(n))) == decimal_text(n),
{
    let bytes = decimal_text(n);
    let chars = numeral(bytes);
    lemma_decimal_text_bytes(n);
    assert forall|i: int| 0 <= i < chars.len() implies '\0' <= #[trigger] chars[i] <= '\u{7f}'
        && chars[i] != '\r' && chars[i] as u8 == bytes[i] by {
        assert(is_digit(bytes[i]) || bytes[i] == MINUS_SIGN);
    }
    assert(is_ascii_chars(chars));
    is_ascii_chars_encode_utf8(chars);
    assert(encode_utf8(chars) =~= bytes);
    if chars.contains('\r') {
        let i = choose|i: int| 0 <= i < chars.len() && chars[i] == '\r';
        assert(chars[i] != '\r');
    }
}

proof fn lemma_count_line(n: int, limit: int)
    requires
        0 <= n <= limit,
    ensures
        declared_len(encode_utf8(numeral(decimal_text(n))), limit) == Declared::Count(n),
{
    lemma_numeral(n);
    lemma_decimal_text_value(n);
}

/// A stream that starts with one character, a line without carriage
/// returns and a line break: the line is found, and what follows it is
/// the rest.
proof fn lemma_tagged_line(s: Seq<char>, line: Seq<char>, rest: Seq<char>)
    requires
        s.len() > 0,
        s.skip(1) == line + seq!['\r', '\n'] + rest,
        !line.contains('\r'),
    ensures
        line_len(s.skip(1)) == Ok::<int, Stop>(line.len() as int),
        s.subrange(1, 1 + line.len() as int) == line,
        s.skip(line.len() as int + 3) == rest,
        s.len() == line.len() + 3 + rest.len(),
{
    lemma_line_of(line, rest);
    let t = s.skip(1);
    assert(s.subrange(1, 1 + line.len() as int) =~= t.take(line.len() as int));
    assert(t.take(line.len() as int) =~= line);
    assert(s.skip(line.len() as int + 3) =~= t.skip(line.len() as int + 2));
    assert(t.skip(line.len() as int + 2) =~= rest);
}

proof fn lemma_simple_round_trip(f: TextFrame)
    requires
        text_wf(f),
        f is SimpleString || f is Error,
    ensures
        read_frame(render(f)) == Ok::<(TextFrame, int), Stop>((f, render(f).len() as int)),
{
    let s = render(f);
    let text = match f {
        TextFrame::SimpleString(text) => text,
        TextFrame::Error(text) => text,
        _ => Seq::empty(),
    };
    assert(s.skip(1) =~= text + seq!['\r', '\n'] + Seq::<char>::empty());
    lemma_tagged_line(s, text, Seq::empty());
}

proof fn lemma_integer_round_trip(f: TextFrame)
    requires
        text_wf(f),
        f is Integer,
    ensures
        read_frame(render(f)) == Ok::<(TextFrame, int), Stop>((f, render(f).len() as int)),
{
    let s = render(f);
    let n = f->Integer_0;
    let line = numeral(decimal_text(n));
    lemma_numeral(n);
    lemma_decimal_text_value(n);
    assert(s.skip(1) =~= line + seq!['\r', '\n'] + Seq::<char>::empty());
    lemma_tagged_line(s, line, Seq::empty());
}

proof fn lemma_null_round_trip()
    ensures
        read_frame(render(TextFrame::Null)) == Ok::<(TextFrame, int), Stop>(
            (TextFrame::Null, render(TextFrame::Null).len() as int),
        ),
{
    let s = render(TextFrame::Null);
    let line = numeral(decimal_text(-1));
    assert(decimal_text(-1) =~= seq![MINUS_SIGN, 49u8]);
    assert(line =~= seq!['-', '1']);
    lemma_numeral(-1);
    lemma_decimal_text_value(-1);
    assert(s.skip(1) =~= line + seq!['\r', '\n'] + Seq::<char>::empty());
    lemma_tagged_line(s, line, Seq::empty());
}

proof fn lemma_bulk_round_trip(f: TextFrame)
    requires
        text_wf(f),
        f is BulkString,
    ensures
        read_frame(render(f)) == Ok::<(TextFrame, int), Stop>((f, render(f).len() as int)),
{
    let s = render(f);
    let text = f->BulkString_0;
    let brk = seq!['\r', '\n'];
    let len = encode_utf8(text).len() as int;
    let line = numeral(decimal_text(len));
    lemma_numeral(len);
    lemma_count_line(len, MAX_BULK_LEN as int);
    assert(s.skip(1) =~= line + brk + (text + brk));
    lemma_tagged_line(s, line, text + brk);
    let taken = line.len() as int + 3;
    let body = s.skip(taken);
    lemma_payload_of(text, brk);
    assert(body[text.len() as int] == '\r');
    assert(body[text.len() as int + 1] == '\n');
    assert(body.take(text.len() as int) =~= text);
    assert(read_bulk(body, line, taken) == Ok::<(TextFrame, int), Stop>(
        (f, taken + text.len() + 2),
    ));
}

/// The reader reads back what the writer writes: the text form of a frame
/// reads as that frame, and takes all of its characters.
pub proof fn law_text_round_trip(f: TextFrame)
    requires
        text_wf(f),
    ensures
        read_frame(render(f)) == Ok::<(TextFrame, int), Stop>((f, render(f).len() as int)),
    decreases f, 1nat,
{
    match f {
        TextFrame::SimpleString(_) => {
            lemma_simple_round_trip(f);
        },
        TextFrame::Error(_) => {
            lemma_simple_round_trip(f);
        },
        TextFrame::Integer(_) => {
            lemma_integer_round_trip(f);
        },
        TextFrame::BulkString(_) => {
            lemma_bulk_round_trip(f);
        },
        TextFrame::Null => {
            lemma_null_round_trip();
        },
        TextFrame::Array(items) => {
            let s = render(f);
            let count = items.len() as int;
            let line = numeral(decimal_text(count));
            lemma_numeral(count);
            lemma_count_line(count, MAX_ARRAY_LEN as int);
            assert(s.skip(1) =~= line + seq!['\r', '\n'] + render_all(items));
            lemma_tagged_line(s, line, render_all(items));
            lemma_text_items_round_trip(items);
        },
    }
}

proof fn lemma_text_items_round_trip(items: Seq<TextFrame>)
    requires
        forall|i: int| 0 <= i < items.len() ==> text_wf(#[trigger] items[i]),
    ensures
        read_frames(render_all(items), items.len()) == Ok::<(Seq<TextFrame>, int), Stop>(
            (items, render_all(items).len() as int),
        ),
    decreases items, 0nat,
{
    if items.len() == 0 {
        assert(items =~= Seq::<TextFrame>::empty());
    } else {
        let first = items[0];
        let rest = items.drop_first();
        assert(text_wf(first));
        assert forall|i: int| 0 <= i < rest.len() implies text_wf(#[trigger] rest[i]) by {
            assert(rest[i] == items[i + 1]);
        }
        law_text_round_trip(first);
        law_read_ignores_what_follows(render(first), render_all(rest));
        lemma_read_bounds(render(first));
        lemma_text_items_round_trip(rest);
        let s = render_all(items);
        let used = render(first).len() as int;
        assert(s.skip(used) =~= render_all(rest));
        assert(seq![first] + rest =~= items);
    }
}


/// The line at the front of a stream, seen through a cut: the same line
/// where the cut falls behind its break, and an unexpected end at the cut
/// where it falls before.
proof fn lemma_line_cut(s: Seq<char>, t: Seq<char>)
    requires
        line_len(s + t) is Ok,
    ensures
        line_len(s + t)->Ok_0 + 2 <= s.len() ==> line_len(s) == line_len(s + t),
        line_len(s + t)->Ok_0 + 2 > s.len() ==> line_len(s) == Err::<int, Stop>(
            stop(TextError::UnexpectedEnd, s.len() as int),
        ),
    decreases s.len(),
{
    let w = s + t;
    lemma_line_len(w);
    if s.len() > 0 {
        assert(w[0] == s[0]);
        if s[0] == '\r' {
            if s.len() > 1 {
                assert(w[1] == s[1]);
            }
        } else {
            assert(w.skip(1) =~= s.skip(1) + t);
            lemma_line_len(w.skip(1));
            lemma_line_cut(s.skip(1), t);
        }
    }
}

/// A payload seen through a cut.
proof fn lemma_payload_cut(s: Seq<char>, t: Seq<char>, bytes: int)
    requires
        payload_len(s + t, bytes) is Ok,
    ensures
        payload_len(s + t, bytes)->Ok_0 <= s.len() ==> payload_len(s, bytes) == payload_len(
            s + t,
            bytes,
        ),
        payload_len(s + t, bytes)->Ok_0 > s.len() ==> payload_len(s, bytes) == Err::<int, Stop>(
            stop(TextError::UnexpectedEnd, s.len() as int),
        ),
    decreases s.len(),
{
    let w = s + t;
    lemma_payload_len(w, bytes);
    if bytes > 0 {
        lemma_payload_len(w.skip(1), bytes - char_width(w[0]));
        if s.len() > 0 {
            assert(w[0] == s[0]);
            assert(w.skip(1) =~= s.skip(1) + t);
            lemma_payload_cut(s.skip(1), t, bytes - char_width(s[0]));
        }
    }
}

/// A stream that is cut short is an unexpected end, and nothing else: of
/// a stream that starts with a frame, every part that holds the whole
/// frame reads as that frame, and every part that stops before the frame
/// does reads as an unexpected end, with all of the part taken.
pub proof fn law_cut_stream_is_unexpected_end(s: Seq<char>, t: Seq<char>)
    requires
        read_frame(s + t) is Ok,
    ensures
        read_frame(s + t)->Ok_0.1 <= s.len() ==> read_frame(s) == read_frame(s + t),
        read_frame(s + t)->Ok_0.1 > s.len() ==> read_frame(s) == Err::<(TextFrame, int), Stop>(
            stop(TextError::UnexpectedEnd, s.len() as int),
        ),
    decreases s.len(), 0nat,
{
    let w = s + t;
    lemma_read_bounds(w);
    if s.len() > 0 {
        assert(w[0] == s[0]);
        assert(w.skip(1) =~= s.skip(1) + t);
        lemma_line_len(w.skip(1));
        lemma_line_cut(s.skip(1), t);
        let n = line_len(w.skip(1))->Ok_0;
        let taken = n + 3;
        let line = w.subrange(1, 1 + n);
        if w[0] == '$' {
            if let Declared::Count(len) = declared_len(encode_utf8(line), MAX_BULK_LEN as int) {
                lemma_payload_len(w.skip(taken), len);
            }
        } else if w[0] == '*' {
            if let Declared::Count(count) = declared_len(encode_utf8(line), MAX_ARRAY_LEN as int) {
                lemma_read_frames_bounds(w.skip(taken), count as nat);
            }
        }
        if taken <= s.len() {
            assert(s.subrange(1, 1 + n) =~= line);
            assert(w.skip(taken) =~= s.skip(taken) + t);
            let body = s.skip(taken);
            if s[0] == '$' {
                if let Declared::Count(len) = declared_len(encode_utf8(line), MAX_BULK_LEN as int) {
                    lemma_bulk_cut(body, t, line, taken);
                }
            } else if s[0] == '*' {
                if let Declared::Count(count) = declared_len(
                    encode_utf8(line),
                    MAX_ARRAY_LEN as int,
                ) {
                    lemma_read_frames_bounds(w.skip(taken), count as nat);
                    lemma_frames_cut(body, t, count as nat);
                }
            }
        }
    }
}

/// The rest of a bulk string seen through a cut.
proof fn lemma_bulk_cut(body: Seq<char>, t: Seq<char>, line: Seq<char>, taken: int)
    requires
        read_bulk(body + t, line, taken) is Ok,
        declared_len(encode_utf8(line), MAX_BULK_LEN as int) is Count,
    ensures
        read_bulk(body + t, line, taken)->Ok_0.1 <= taken + body.len() ==> read_bulk(
            body,
            line,
            taken,
        ) == read_bulk(body + t, line, taken),
        read_bulk(body + t, line, taken)->Ok_0.1 > taken + body.len() ==> read_bulk(
            body,
            line,
            taken,
        ) == Err::<(TextFrame, int), Stop>(
            stop(TextError::UnexpectedEnd, taken + body.len() as int),
        ),
{
    let w = body + t;
    let len = declared_len(encode_utf8(line), MAX_BULK_LEN as int)->Count_0;
    lemma_payload_len(w, len);
    lemma_payload_cut(body, t, len);
    let k = payload_len(w, len)->Ok_0;
    if k <= body.len() {
        let behind = body.skip(k);
        if body.len() >= k + 2 {
            assert(body[k] == w[k] && body[k + 1] == w[k + 1]);
            assert(body.take(k) =~= w.take(k));
        } else if body.len() == k + 1 {
            assert(body[k] == w[k]);
            assert(behind[0] == body[k]);
            assert(break_stop(behind) == stop(TextError::UnexpectedEnd, 1));
        } else {
            assert(break_stop(behind) == stop(TextError::UnexpectedEnd, 0));
        }
    }
}

/// A run of frames seen through a cut.
proof fn lemma_frames_cut(s: Seq<char>, t: Seq<char>, count: nat)
    requires
        read_frames(s + t, count) is Ok,
    ensures
        read_frames(s + t, count)->Ok_0.1 <= s.len() ==> read_frames(s, count) == read_frames(
            s + t,
            count,
        ),
        read_frames(s + t, count)->Ok_0.1 > s.len() ==> read_frames(s, count) == Err::<
            (Seq<TextFrame>, int),
            Stop,
        >(stop(TextError::UnexpectedEnd, s.len() as int)),
    decreases s.len(), count + 1,
{
    let w = s + t;
    if count > 0 {
        lemma_read_bounds(w);
        law_cut_stream_is_unexpected_end(s, t);
        let used = read_frame(w)->Ok_0.1;
        lemma_read_frames_bounds(w.skip(used), (count - 1) as nat);
        if used <= s.len() {
            assert(w.skip(used) =~= s.skip(used) + t);
            lemma_frames_cut(s.skip(used), t, (count - 1) as nat);
        }
    }
}

/// A frame that was cut short is an unexpected end wherever the cut
/// falls: no proper part of a frame's text form reads as a frame or as
/// any other error, and the reader takes all of the part.
pub proof fn law_text_prefix_is_incomplete(f: TextFrame, cut: int)
    requires
        text_wf(f),
        0 <= cut < render(f).len(),
    ensures
        read_frame(render(f).take(cut)) == Err::<(TextFrame, int), Stop>(
            stop(TextError::UnexpectedEnd, cut),
        ),
{
    law_text_round_trip(f);
    let s = render(f).take(cut);
    let t = render(f).skip(cut);
    assert(s + t =~= render(f));
    law_cut_stream_is_unexpected_end(s, t);
}

proof fn lemma_line_end_uses_up(s: Seq<char>)
    ensures
        line_len(s) matches Err(st) ==> st.error == TextError::UnexpectedEnd ==> st.taken
            == s.len(),
    decreases s.len(),
{
    if s.len() > 0 && s[0] != '\r' {
        lemma_line_end_uses_up(s.skip(1));
    }
}

proof fn lemma_payload_end_uses_up(s: Seq<char>, bytes: int)
    ensures
        payload_len(s, bytes) matches Err(st) ==> st.error == TextError::UnexpectedEnd
            ==> st.taken == s.len(),
    decreases s.len(),
{
    if bytes > 0 && s.len() > 0 && char_width(s[0]) <= bytes {
        lemma_payload_end_uses_up(s.skip(1), bytes - char_width(s[0]));
    }
}

/// An unexpected end is given only where the stream is used up: the
/// reader has then taken every character that the stream held.
pub proof fn law_unexpected_end_uses_up_the_stream(s: Seq<char>)
    ensures
        read_frame(s) matches Err(st) ==> st.error == TextError::UnexpectedEnd ==> st.taken
            == s.len(),
    decreases s.len(), 0nat,
{
    if s.len() > 0 && is_tag_char(s[0]) {
        lemma_line_len(s.skip(1));
        lemma_line_end_uses_up(s.skip(1));
        if let Ok(n) = line_len(s.skip(1)) {
            let line = s.subrange(1, 1 + n);
            let taken = n + 3;
            let body = s.skip(taken);
            if s[0] == '$' {
                if let Declared::Count(len) = declared_len(encode_utf8(line), MAX_BULK_LEN as int) {
                    lemma_payload_len(body, len);
                    lemma_payload_end_uses_up(body, len);
                }
            } else if s[0] == '*' {
                if let Declared::Count(count) = declared_len(
                    encode_utf8(line),
                    MAX_ARRAY_LEN as int,
                ) {
                    lemma_frames_end_uses_up(body, count as nat);
                }
            }
        }
    }
}

proof fn lemma_frames_end_uses_up(s: Seq<char>, count: nat)
    ensures
        read_frames(s, count) matches Err(st) ==> st.error == TextError::UnexpectedEnd
            ==> st.taken == s.len(),
    decreases s.len(), count + 1,
{
    if count > 0 {
        lemma_read_bounds(s);
        law_unexpected_end_uses_up_the_stream(s);
        if let Ok((first, used)) = read_frame(s) {
            lemma_frames_end_uses_up(s.skip(used), (count - 1) as nat);
        }
    }
}

/// What cannot start a frame never will: where the reader gives another
/// error than an unexpected end, no characters behind the stream make it
/// start with a frame.
pub proof fn law_malformed_stays_malformed(s: Seq<char>, t: Seq<char>)
    requires
        read_frame(s) matches Err(st) && st.error != TextError::UnexpectedEnd,
    ensures
        read_frame(s + t) is Err,
{
    if read_frame(s + t) is Ok {
        law_cut_stream_is_unexpected_end(s, t);
    }
}

} // verus!
