//! What holds of the wire codec as a whole: the parser reads back what the
//! serializer writes, looks at no byte behind the frame it returns, and
//! finds a frame that was cut short incomplete wherever the cut falls.

use crate::decimal::{
    decimal_text, decimal_value, is_digit, lemma_decimal_text_bytes, lemma_decimal_text_value,
    MINUS_SIGN,
};
use crate::frame::{
    crlf, encode, encode_all, frame_wf, is_line_text, Frame, CR, LF, MAX_ARRAY_LEN, MAX_BULK_LEN,
    TAG_ARRAY, TAG_BULK, TAG_ERROR, TAG_INTEGER, TAG_SIMPLE,
};
use crate::parser::{
    declared_len, is_crlf_at, is_tag, lemma_line_end, lemma_line_end_is, lemma_parse_bounds,
    line_end, parse_frame, parse_items, Declared, Parsed, ParsedItems,
};
use vstd::prelude::*;

verus! {

/// A line break that `s` holds is the first one in `s + t` too.
proof fn lemma_line_end_extends(s: Seq<u8>, t: Seq<u8>, from: int)
    requires
        0 <= from,
        line_end(s, from) is Some,
    ensures
        line_end(s + t, from) == line_end(s, from),
{
    lemma_line_end(s, from);
    let end = line_end(s, from)->0;
    assert forall|i: int| from <= i < end implies !is_crlf_at(s + t, i) by {
        assert(!is_crlf_at(s, i));
        assert((s + t)[i] == s[i]);
        assert((s + t)[i + 1] == s[i + 1]);
    }
    assert((s + t)[end] == s[end]);
    assert((s + t)[end + 1] == s[end + 1]);
    lemma_line_end_is(s + t, from, end);
}

/// The parser looks at no byte behind the frame it returns: whatever
/// follows a whole frame in the buffer, the frame and the number of bytes
/// it takes are the same.
pub proof fn law_parse_ignores_what_follows(s: Seq<u8>, t: Seq<u8>)
    requires
        parse_frame(s) is Complete,
    ensures
        parse_frame(s + t) == parse_frame(s),
    decreases s.len(), 0nat,
{
    let w = s + t;
    assert(s.len() > 0);
    assert(w[0] == s[0]);
    lemma_line_end(s, 1);
    lemma_line_end_extends(s, t, 1);
    let end = line_end(s, 1)->0;
    let body = end + 2;
    assert(w.subrange(1, end) =~= s.subrange(1, end));
    let line = s.subrange(1, end);
    if s[0] == TAG_BULK {
        if let Declared::Count(n) = declared_len(line, MAX_BULK_LEN as int) {
            assert(w[body + n] == s[body + n]);
            assert(w[body + n + 1] == s[body + n + 1]);
            assert(w.subrange(body, body + n) =~= s.subrange(body, body + n));
        }
    } else if s[0] == TAG_ARRAY {
        if let Declared::Count(n) = declared_len(line, MAX_ARRAY_LEN as int) {
            assert(w.skip(body) =~= s.skip(body) + t);
            lemma_items_ignore_what_follows(s.skip(body), t, n as nat);
        }
    }
}

proof fn lemma_items_ignore_what_follows(s: Seq<u8>, t: Seq<u8>, count: nat)
    requires
        parse_items(s, count) is Complete,
    ensures
        parse_items(s + t, count) == parse_items(s, count),
    decreases s.len(), count + 1,
{
    if count > 0 {
        lemma_parse_bounds(s);
        law_parse_ignores_what_follows(s, t);
        let used = parse_frame(s)->Complete_1;
        assert((s + t).skip(used) =~= s.skip(used) + t);
        lemma_items_ignore_what_follows(s.skip(used), t, (count - 1) as nat);
    }
}


/// A text without carriage returns.
spec fn no_cr(text: Seq<u8>) -> bool {
    forall|i: int| 0 <= i < text.len() ==> #[trigger] text[i] != CR
}

/// In a buffer that starts with one byte, a text without carriage returns
/// and a line break, the line ends where the text ends.
proof fn lemma_first_line(s: Seq<u8>, text: Seq<u8>)
    requires
        no_cr(text),
        s.len() >= text.len() + 3,
        s.subrange(1, 1 + text.len() as int) == text,
        s[1 + text.len() as int] == CR,
        s[2 + text.len() as int] == LF,
    ensures
        line_end(s, 1) == Some(1 + text.len() as int),
{
    let end = 1 + text.len() as int;
    assert forall|i: int| 1 <= i < end implies !is_crlf_at(s, i) by {
        assert(s[i] == s.subrange(1, end)[i - 1]);
        assert(text[i - 1] != CR);
    }
    lemma_line_end_is(s, 1, end);
}

/// A buffer that stops before the line break of its first line holds no
/// line break.
proof fn lemma_no_first_line(p: Seq<u8>, text: Seq<u8>)
    requires
        no_cr(text),
        p.len() <= text.len() + 2,
        forall|i: int| 1 <= i < p.len() && i < 1 + text.len() ==> p[i] == text[i - 1],
    ensures
        line_end(p, 1) is None,
{
    lemma_line_end(p, 1);
    if let Some(end) = line_end(p, 1) {
        assert(is_crlf_at(p, end));
        assert(end + 1 < p.len());
        assert(end < 1 + text.len());
        assert(p[end] == text[end - 1]);
        assert(text[end - 1] != CR);
    }
}

proof fn lemma_numeral_has_no_cr(n: int)
    ensures
        no_cr(decimal_text(n)),
{
    lemma_decimal_text_bytes(n);
    assert forall|i: int| 0 <= i < decimal_text(n).len() implies #[trigger] decimal_text(n)[i]
        != CR by {
        assert(is_digit(decimal_text(n)[i]) || decimal_text(n)[i] == MINUS_SIGN);
    }
}

proof fn lemma_line_text_has_no_cr(text: Seq<u8>)
    requires
        is_line_text(text),
    ensures
        no_cr(text),
{
    assert forall|i: int| 0 <= i < text.len() implies #[trigger] text[i] != CR by {
        assert(text[i] != CR && text[i] != LF);
    }
}

/// The length line of a count within the limit declares that count.
proof fn lemma_declared_count(n: int, limit: int)
    requires
        0 <= n <= limit,
    ensures
        declared_len(decimal_text(n), limit) == Declared::Count(n),
{
    lemma_decimal_text_value(n);
}

/// The text that a frame's first line holds, its tag and line break apart.
spec fn first_line_text(f: Frame) -> Seq<u8> {
    match f {
        Frame::SimpleString(text) => text,
        Frame::Error(text) => text,
        Frame::Integer(n) => decimal_text(n),
        Frame::BulkString(bytes) => decimal_text(bytes.len() as int),
        Frame::Array(items) => decimal_text(items.len() as int),
        Frame::Null => seq![MINUS_SIGN, 49u8],
    }
}

/// What follows a frame's first line in its wire form.
spec fn after_first_line(f: Frame) -> Seq<u8> {
    match f {
        Frame::BulkString(bytes) => bytes + crlf(),
        Frame::Array(items) => encode_all(items),
        _ => Seq::empty(),
    }
}

spec fn tag_of(f: Frame) -> u8 {
    match f {
        Frame::SimpleString(_) => TAG_SIMPLE,
        Frame::Error(_) => TAG_ERROR,
        Frame::Integer(_) => TAG_INTEGER,
        Frame::BulkString(_) => TAG_BULK,
        Frame::Array(_) => TAG_ARRAY,
        Frame::Null => TAG_BULK,
    }
}

/// The wire form of a frame is its tag, its first line, a line break and
/// the rest; the first line holds no carriage return.
proof fn lemma_encode_shape(f: Frame)
    requires
        frame_wf(f),
    ensures
        encode(f) == seq![tag_of(f)] + first_line_text(f) + crlf() + after_first_line(f),
        no_cr(first_line_text(f)),
        is_tag(tag_of(f)),
{
    let text = first_line_text(f);
    match f {
        Frame::SimpleString(t) => {
            lemma_line_text_has_no_cr(t);
            assert(encode(f) =~= seq![tag_of(f)] + text + crlf() + after_first_line(f));
        },
        Frame::Error(t) => {
            lemma_line_text_has_no_cr(t);
            assert(encode(f) =~= seq![tag_of(f)] + text + crlf() + after_first_line(f));
        },
        Frame::Integer(n) => {
            lemma_numeral_has_no_cr(n);
            assert(encode(f) =~= seq![tag_of(f)] + text + crlf() + after_first_line(f));
        },
        Frame::BulkString(bytes) => {
            lemma_numeral_has_no_cr(bytes.len() as int);
            assert(encode(f) =~= seq![tag_of(f)] + text + crlf() + after_first_line(f));
        },
        Frame::Array(items) => {
            lemma_numeral_has_no_cr(items.len() as int);
            assert(encode(f) =~= seq![tag_of(f)] + text + crlf() + after_first_line(f));
        },
        Frame::Null => {
            assert(encode(f) =~= seq![tag_of(f)] + text + crlf() + after_first_line(f));
        },
    }
}

/// The parser reads back what the serializer writes: the wire form of a
/// frame parses to that frame, and takes all of its bytes.
pub proof fn law_round_trip(f: Frame)
    requires
        frame_wf(f),
    ensures
        parse_frame(encode(f)) == Parsed::Complete(f, encode(f).len() as int),
    decreases f, 1nat,
{
    lemma_encode_shape(f);
    let s = encode(f);
    let text = first_line_text(f);
    let rest = after_first_line(f);
    let end = 1 + text.len() as int;
    let body = end + 2;
    assert(s.len() == body + rest.len());
    assert(s[0] == tag_of(f));
    assert(s.subrange(1, end) =~= text);
    assert(s[end] == CR && s[end + 1] == LF);
    lemma_first_line(s, text);
    match f {
        Frame::SimpleString(t) => {},
        Frame::Error(t) => {},
        Frame::Integer(n) => {
            lemma_decimal_text_value(n);
        },
        Frame::BulkString(bytes) => {
            let n = bytes.len() as int;
            lemma_declared_count(n, MAX_BULK_LEN as int);
            assert(s[body + n] == CR && s[body + n + 1] == LF);
            assert(s.subrange(body, body + n) =~= bytes);
        },
        Frame::Array(items) => {
            lemma_declared_count(items.len() as int, MAX_ARRAY_LEN as int);
            assert(s.skip(body) =~= encode_all(items));
            lemma_items_round_trip(items);
        },
        Frame::Null => {
            assert(text =~= seq![MINUS_SIGN, 49u8]);
            assert(text.skip(1) =~= seq![49u8]);
            assert(seq![49u8].drop_last() =~= Seq::<u8>::empty());
            assert(decimal_value(text) == Some(-1int)) by {
                reveal_with_fuel(crate::decimal::digits_value, 2);
            }
        },
    }
}

/// A run of frames parses to those frames.
proof fn lemma_items_round_trip(items: Seq<Frame>)
    requires
        forall|i: int| 0 <= i < items.len() ==> frame_wf(#[trigger] items[i]),
    ensures
        parse_items(encode_all(items), items.len()) == ParsedItems::Complete(
            items,
            encode_all(items).len() as int,
        ),
    decreases items, 0nat,
{
    if items.len() == 0 {
        assert(items =~= Seq::<Frame>::empty());
    } else {
        let first = items[0];
        let rest = items.drop_first();
        assert(frame_wf(first));
        assert forall|i: int| 0 <= i < rest.len() implies frame_wf(#[trigger] rest[i]) by {
            assert(rest[i] == items[i + 1]);
        }
        law_round_trip(first);
        law_parse_ignores_what_follows(encode(first), encode_all(rest));
        lemma_parse_bounds(encode(first));
        lemma_items_round_trip(rest);
        let s = encode_all(items);
        let used = encode(first).len() as int;
        assert(s.skip(used) =~= encode_all(rest));
        assert(seq![first] + rest =~= items);
    }
}

/// A frame that was cut short is incomplete wherever the cut falls: no
/// proper prefix of a frame's wire form parses to a frame or is refused.
pub proof fn law_prefix_is_incomplete(f: Frame, cut: int)
    requires
        frame_wf(f),
        0 <= cut < encode(f).len(),
    ensures
        parse_frame(encode(f).take(cut)) == Parsed::Incomplete,
    decreases f, 1nat,
{
    lemma_encode_shape(f);
    let s = encode(f);
    let p = s.take(cut);
    let text = first_line_text(f);
    let rest = after_first_line(f);
    let end = 1 + text.len() as int;
    let body = end + 2;
    if cut == 0 {
    } else if cut < body {
        assert(p[0] == tag_of(f));
        assert forall|i: int| 1 <= i < p.len() && i < 1 + text.len() implies p[i] == text[i
            - 1] by {
            assert(p[i] == s[i]);
        }
        lemma_no_first_line(p, text);
    } else {
        assert(p[0] == tag_of(f));
        assert(p.subrange(1, end) =~= text);
        assert(p[end] == s[end] && p[end + 1] == s[end + 1]);
        lemma_first_line(p, text);
        match f {
            Frame::BulkString(bytes) => {
                lemma_declared_count(bytes.len() as int, MAX_BULK_LEN as int);
            },
            Frame::Array(items) => {
                lemma_declared_count(items.len() as int, MAX_ARRAY_LEN as int);
                assert(p.skip(body) =~= encode_all(items).take(cut - body));
                lemma_items_prefix_is_incomplete(items, cut - body);
            },
            _ => {},
        }
    }
}

proof fn lemma_items_prefix_is_incomplete(items: Seq<Frame>, cut: int)
    requires
        forall|i: int| 0 <= i < items.len() ==> frame_wf(#[trigger] items[i]),
        0 <= cut < encode_all(items).len(),
    ensures
        parse_items(encode_all(items).take(cut), items.len()) == ParsedItems::Incomplete,
    decreases items, 0nat,
{
    assert(items.len() > 0);
    let first = items[0];
    let rest = items.drop_first();
    let head = encode(first);
    let tail = encode_all(rest);
    let p = encode_all(items).take(cut);
    assert(frame_wf(first));
    if cut < head.len() {
        assert(p =~= head.take(cut));
        law_prefix_is_incomplete(first, cut);
    } else {
        assert forall|i: int| 0 <= i < rest.len() implies frame_wf(#[trigger] rest[i]) by {
            assert(rest[i] == items[i + 1]);
        }
        let more = tail.take(cut - head.len());
        assert(p =~= head + more);
        law_round_trip(first);
        law_parse_ignores_what_follows(head, more);
        lemma_parse_bounds(head);
        assert(p.skip(head.len() as int) =~= more);
        lemma_items_prefix_is_incomplete(rest, cut - head.len());
    }
}

/// The round trip with more bytes behind the frame: the parser returns the
/// frame and takes the frame's bytes, no more.
pub proof fn law_round_trip_in_a_stream(f: Frame, following: Seq<u8>)
    requires
        frame_wf(f),
    ensures
        parse_frame(encode(f) + following) == Parsed::Complete(f, encode(f).len() as int),
{
    law_round_trip(f);
    law_parse_ignores_what_follows(encode(f), following);
}

} // verus!
