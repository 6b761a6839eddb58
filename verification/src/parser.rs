//! The incremental frame parser: what a byte buffer holds at its front,
//! as a mathematical function, and the executable parser that computes it.

use crate::decimal::{decimal_value, i64_of_decimal, scan_decimal, Scanned};
use crate::frame::{
    Frame, RespData, frames_view, lemma_array_view, CR, LF, MAX_ARRAY_LEN, MAX_BULK_LEN, TAG_ARRAY,
    TAG_BULK, TAG_ERROR, TAG_INTEGER, TAG_SIMPLE,
};
use vstd::prelude::*;
use vstd::slice::{slice_subrange, slice_to_vec};

verus! {

/// Why a buffer cannot start a frame, however many bytes follow.
#[derive(Clone, Copy, Debug, PartialEq, Eq, Structural)]
pub enum ParseError {
    /// The first byte is none of the five frame tags.
    BadPrefix,
    /// A length or count line is no decimal numeral of at least -1, or a
    /// bulk payload is not followed by a line break where its length ends.
    BadLength,
    /// The line of an integer frame is no signed 64-bit decimal numeral.
    TruncatedInteger,
    /// A length or count above the codec's limit.
    Oversize,
}

/// What stands at the front of a buffer.
pub enum Parsed {
    /// A whole frame, and the number of bytes it takes.
    Complete(Frame, int),
    /// A proper prefix of a frame, so far.
    Incomplete,
    Malformed(ParseError),
}

/// What stands at the front of a buffer where a run of frames is expected.
pub enum ParsedItems {
    Complete(Seq<Frame>, int),
    Incomplete,
    Malformed(ParseError),
}

/// What a length or count line declares.
pub enum Declared {
    /// The numeral -1: no payload at all.
    Absent,
    Count(int),
    Refused(ParseError),
}

pub open spec fn is_tag(b: u8) -> bool {
    b == TAG_SIMPLE || b == TAG_ERROR || b == TAG_INTEGER || b == TAG_BULK || b == TAG_ARRAY
}

pub open spec fn is_crlf_at(s: Seq<u8>, i: int) -> bool {
    0 <= i && i + 1 < s.len() && s[i] == CR && s[i + 1] == LF
}

/// The position of the first line break at or after `from`.
pub open spec fn line_end(s: Seq<u8>, from: int) -> Option<int>
    decreases s.len() - from,
{
    if from < 0 || from + 1 >= s.len() {
        None
    } else if s[from] == CR && s[from + 1] == LF {
        Some(from)
    } else {
        line_end(s, from + 1)
    }
}

/// `line_end` finds a line break, and the first one.
pub proof fn lemma_line_end(s: Seq<u8>, from: int)
    requires
        0 <= from,
    ensures
        match line_end(s, from) {
            Some(end) => from <= end && is_crlf_at(s, end) && forall|i: int|
                from <= i < end ==> !is_crlf_at(s, i),
            None => forall|i: int| from <= i ==> !is_crlf_at(s, i),
        },
    decreases s.len() - from,
{
    if from + 1 >= s.len() {
    } else if s[from] == CR && s[from + 1] == LF {
    } else {
        lemma_line_end(s, from + 1);
    }
}

/// A line break at `end` with none before it is what `line_end` finds.
pub proof fn lemma_line_end_is(s: Seq<u8>, from: int, end: int)
    requires
        0 <= from <= end,
        is_crlf_at(s, end),
        forall|i: int| from <= i < end ==> !is_crlf_at(s, i),
    ensures
        line_end(s, from) == Some(end),
    decreases end - from,
{
    if from < end {
        assert(!is_crlf_at(s, from));
        lemma_line_end_is(s, from + 1, end);
    }
}

pub open spec fn declared_len(line: Seq<u8>, limit: int) -> Declared {
    match decimal_value(line) {
        None => Declared::Refused(ParseError::BadLength),
        Some(v) => if v == -1 {
            Declared::Absent
        } else if v < 0 {
            Declared::Refused(ParseError::BadLength)
        } else if v > limit {
            Declared::Refused(ParseError::Oversize)
        } else {
            Declared::Count(v)
        },
    }
}

/// The rest of a bulk frame whose length line ends just before `body`.
pub open spec fn parse_bulk_body(s: Seq<u8>, line: Seq<u8>, body: int) -> Parsed {
    match declared_len(line, MAX_BULK_LEN as int) {
        Declared::Refused(e) => Parsed::Malformed(e),
        Declared::Absent => Parsed::Complete(Frame::Null, body),
        Declared::Count(n) => if s.len() < body + n + 2 {
            Parsed::Incomplete
        } else if s[body + n] != CR || s[body + n + 1] != LF {
            Parsed::Malformed(ParseError::BadLength)
        } else {
            Parsed::Complete(Frame::BulkString(s.subrange(body, body + n)), body + n + 2)
        },
    }
}

/// The frame at the front of `s`.
///
/// The result depends on the frame's own bytes alone, and a buffer that
/// stops short of the frame's end is `Incomplete`: see `codec_laws`.
pub open spec fn parse_frame(s: Seq<u8>) -> Parsed
    decreases s.len(), 0nat,
{
    if s.len() == 0 {
        Parsed::Incomplete
    } else if !is_tag(s[0]) {
        Parsed::Malformed(ParseError::BadPrefix)
    } else {
        match line_end(s, 1) {
            None => Parsed::Incomplete,
            Some(end) => {
                let line = s.subrange(1, end);
                let body = end + 2;
                if s[0] == TAG_SIMPLE {
                    Parsed::Complete(Frame::SimpleString(line), body)
                } else if s[0] == TAG_ERROR {
                    Parsed::Complete(Frame::Error(line), body)
                } else if s[0] == TAG_INTEGER {
                    match i64_of_decimal(line) {
                        Some(v) => Parsed::Complete(Frame::Integer(v as int), body),
                        None => Parsed::Malformed(ParseError::TruncatedInteger),
                    }
                } else if s[0] == TAG_BULK {
                    parse_bulk_body(s, line, body)
                } else {
                    match declared_len(line, MAX_ARRAY_LEN as int) {
                        Declared::Refused(e) => Parsed::Malformed(e),
                        Declared::Absent => Parsed::Complete(Frame::Null, body),
                        Declared::Count(n) => {
                            proof {
                                lemma_line_end(s, 1);
                            }
                            match parse_items(s.skip(body), n as nat) {
                                ParsedItems::Complete(items, used) => Parsed::Complete(
                                    Frame::Array(items),
                                    body + used,
                                ),
                                ParsedItems::Incomplete => Parsed::Incomplete,
                                ParsedItems::Malformed(e) => Parsed::Malformed(e),
                            }
                        },
                    }
                }
            },
        }
    }
}

/// `count` frames in a row at the front of `s`.
pub open spec fn parse_items(s: Seq<u8>, count: nat) -> ParsedItems
    decreases s.len(), count + 1,
{
    if count == 0 {
        ParsedItems::Complete(Seq::empty(), 0)
    } else {
        match parse_frame(s) {
            Parsed::Complete(first, used) => {
                // A frame takes at least one byte and no more than there
                // are (`lemma_parse_bounds`): the first branch is never taken.
                if used <= 0 || used > s.len() {
                    ParsedItems::Incomplete
                } else {
                    extend_items(seq![first], used, parse_items(s.skip(used), (count - 1) as nat))
                }
            },
            Parsed::Incomplete => ParsedItems::Incomplete,
            Parsed::Malformed(e) => ParsedItems::Malformed(e),
        }
    }
}

/// The frames `done`, which took `used` bytes, followed by what `rest` found.
pub open spec fn extend_items(done: Seq<Frame>, used: int, rest: ParsedItems) -> ParsedItems {
    match rest {
        ParsedItems::Complete(more, k) => ParsedItems::Complete(done + more, used + k),
        ParsedItems::Incomplete => ParsedItems::Incomplete,
        ParsedItems::Malformed(e) => ParsedItems::Malformed(e),
    }
}

/// A parsed frame takes at least its tag and a line break, and never more
/// bytes than the buffer holds.
pub proof fn lemma_parse_bounds(s: Seq<u8>)
    ensures
        parse_frame(s) matches Parsed::Complete(_, n) ==> 3 <= n <= s.len(),
    decreases s.len(), 0nat,
{
    if s.len() > 0 && is_tag(s[0]) {
        lemma_line_end(s, 1);
        if let Some(end) = line_end(s, 1) {
            let body = end + 2;
            if s[0] == TAG_ARRAY {
                if let Declared::Count(n) = declared_len(s.subrange(1, end), MAX_ARRAY_LEN as int) {
                    lemma_items_bounds(s.skip(body), n as nat);
                }
            }
        }
    }
}

pub proof fn lemma_items_bounds(s: Seq<u8>, count: nat)
    ensures
        parse_items(s, count) matches ParsedItems::Complete(items, n) ==> 0 <= n <= s.len()
            && items.len() == count,
    decreases s.len(), count + 1,
{
    if count > 0 {
        lemma_parse_bounds(s);
        if let Parsed::Complete(first, used) = parse_frame(s) {
            lemma_items_bounds(s.skip(used), (count - 1) as nat);
        }
    }
}

/// Whether the parser's answer `r` is what `expected` says of the buffer.
pub open spec fn parse_agrees(
    r: Result<Option<(usize, RespData)>, ParseError>,
    expected: Parsed,
) -> bool {
    match expected {
        Parsed::Complete(f, n) => r matches Ok(Some((k, d))) && k == n && d@ == f,
        Parsed::Incomplete => r matches Ok(None),
        Parsed::Malformed(e) => r matches Err(x) && x == e,
    }
}

/// The position of the first line break in `buffer` at or after `start`.
pub fn find_crlf(buffer: &[u8], start: usize) -> (r: Option<usize>)
    ensures
        match r {
            Some(end) => line_end(buffer@, start as int) == Some(end as int) && end + 1
                < buffer.len(),
            None => line_end(buffer@, start as int) is None,
        },
{
    let n = buffer.len();
    let mut i: usize = start;
    while i < n && i + 1 < n
        invariant
            start <= i,
            n == buffer@.len(),
            line_end(buffer@, start as int) == line_end(buffer@, i as int),
        decreases n - i,
    {
        if buffer[i] == CR && buffer[i + 1] == LF {
            return Some(i);
        }
        i += 1;
    }
    None
}

/// Reads a length or count line against one of the codec's limits.
pub(crate) fn read_len(line: &[u8], limit: usize) -> (r: Result<Option<usize>, ParseError>)
    requires
        limit <= MAX_BULK_LEN,
    ensures
        match declared_len(line@, limit as int) {
            Declared::Refused(e) => r matches Err(x) && x == e,
            Declared::Absent => r matches Ok(None),
            Declared::Count(n) => r matches Ok(Some(k)) && k == n,
        },
{
    match scan_decimal(line) {
        Scanned::Invalid => Err(ParseError::BadLength),
        Scanned::Below => Err(ParseError::BadLength),
        Scanned::Above => Err(ParseError::Oversize),
        Scanned::Fits(v) => {
            if v == -1 {
                Ok(None)
            } else if v < 0 {
                Err(ParseError::BadLength)
            } else if v > limit as i64 {
                Err(ParseError::Oversize)
            } else {
                Ok(Some(v as usize))
            }
        },
    }
}

fn parse_simple_string(buffer: &[u8]) -> (r: Result<Option<(usize, RespData)>, ParseError>)
    requires
        buffer@.len() > 0,
        buffer@[0] == TAG_SIMPLE,
    ensures
        parse_agrees(r, parse_frame(buffer@)),
{
    match find_crlf(buffer, 1) {
        Some(end) => {
            proof {
                lemma_line_end(buffer@, 1);
            }
            let text = slice_to_vec(slice_subrange(buffer, 1, end));
            Ok(Some((end + 2, RespData::SimpleString(text))))
        },
        None => Ok(None),
    }
}

fn parse_error(buffer: &[u8]) -> (r: Result<Option<(usize, RespData)>, ParseError>)
    requires
        buffer@.len() > 0,
        buffer@[0] == TAG_ERROR,
    ensures
        parse_agrees(r, parse_frame(buffer@)),
{
    match find_crlf(buffer, 1) {
        Some(end) => {
            proof {
                lemma_line_end(buffer@, 1);
            }
            let text = slice_to_vec(slice_subrange(buffer, 1, end));
            Ok(Some((end + 2, RespData::Error(text))))
        },
        None => Ok(None),
    }
}

fn parse_integer(buffer: &[u8]) -> (r: Result<Option<(usize, RespData)>, ParseError>)
    requires
        buffer@.len() > 0,
        buffer@[0] == TAG_INTEGER,
    ensures
        parse_agrees(r, parse_frame(buffer@)),
{
    match find_crlf(buffer, 1) {
        Some(end) => {
            proof {
                lemma_line_end(buffer@, 1);
            }
            match scan_decimal(slice_subrange(buffer, 1, end)) {
                Scanned::Fits(v) => Ok(Some((end + 2, RespData::Integer(v)))),
                _ => Err(ParseError::TruncatedInteger),
            }
        },
        None => Ok(None),
    }
}

fn parse_bulk_string(buffer: &[u8]) -> (r: Result<Option<(usize, RespData)>, ParseError>)
    requires
        buffer@.len() > 0,
        buffer@[0] == TAG_BULK,
    ensures
        parse_agrees(r, parse_frame(buffer@)),
{
    match find_crlf(buffer, 1) {
        Some(end) => {
            proof {
                lemma_line_end(buffer@, 1);
            }
            match read_len(slice_subrange(buffer, 1, end), MAX_BULK_LEN) {
                Err(e) => Err(e),
                Ok(None) => Ok(Some((end + 2, RespData::Null))),
                Ok(Some(len)) => {
                    let body = end + 2;
                    if buffer.len() - body < len || buffer.len() - body - len < 2 {
                        Ok(None)
                    } else if buffer[body + len] != CR || buffer[body + len + 1] != LF {
                        Err(ParseError::BadLength)
                    } else {
                        let bytes = slice_to_vec(slice_subrange(buffer, body, body + len));
                        Ok(Some((body + len + 2, RespData::BulkString(bytes))))
                    }
                },
            }
        },
        None => Ok(None),
    }
}

fn parse_array(buffer: &[u8]) -> (r: Result<Option<(usize, RespData)>, ParseError>)
    requires
        buffer@.len() > 0,
        buffer@[0] == TAG_ARRAY,
    ensures
        parse_agrees(r, parse_frame(buffer@)),
    decreases buffer@.len(), 0nat,
{
    match find_crlf(buffer, 1) {
        Some(end) => {
            proof {
                lemma_line_end(buffer@, 1);
            }
            match read_len(slice_subrange(buffer, 1, end), MAX_ARRAY_LEN) {
                Err(e) => Err(e),
                Ok(None) => Ok(Some((end + 2, RespData::Null))),
                Ok(Some(count)) => {
                    let body = end + 2;
                    let ghost all = buffer@.skip(body as int);
                    let mut elements: Vec<RespData> = Vec::new();
                    let mut current_pos = body;
                    let mut i: usize = 0;
                    proof {
                        assert(all.skip(0) =~= all);
                        assert(frames_view(elements@) =~= Seq::<Frame>::empty());
                        lemma_extend_nothing(parse_items(all, count as nat));
                    }
                    while i < count
                        invariant
                            i <= count,
                            3 <= body <= current_pos <= buffer@.len(),
                            all == buffer@.skip(body as int),
                            buffer@[0] == TAG_ARRAY,
                            line_end(buffer@, 1) == Some(body - 2),
                            declared_len(buffer@.subrange(1, body - 2), MAX_ARRAY_LEN as int)
                                == Declared::Count(count as int),
                            elements@.len() == i,
                            parse_items(all, count as nat) == extend_items(
                                frames_view(elements@),
                                current_pos - body,
                                parse_items(buffer@.skip(current_pos as int), (count - i) as nat),
                            ),
                        decreases count - i,
                    {
                        let rest = slice_subrange(buffer, current_pos, buffer.len());
                        let ghost tail = buffer@.skip(current_pos as int);
                        let ghost done = frames_view(elements@);
                        proof {
                            assert(rest@ =~= tail);
                            lemma_parse_bounds(tail);
                        }
                        match parse_resp(rest) {
                            Err(e) => {
                                return Err(e);
                            },
                            Ok(None) => {
                                return Ok(None);
                            },
                            Ok(Some((consumed, element))) => {
                                proof {
                                    let after = parse_items(
                                        tail.skip(consumed as int),
                                        (count - i - 1) as nat,
                                    );
                                    assert(tail.skip(consumed as int) =~= buffer@.skip(
                                        current_pos + consumed,
                                    ));
                                    assert(frames_view(elements@.push(element)) =~= done + seq![
                                        element@,
                                    ]);
                                    lemma_extend_twice(
                                        done,
                                        current_pos - body,
                                        seq![element@],
                                        consumed as int,
                                        after,
                                    );
                                }
                                elements.push(element);
                                current_pos += consumed;
                            },
                        }
                        i += 1;
                    }
                    proof {
                        lemma_array_view(elements);
                        assert(frames_view(elements@) + Seq::<Frame>::empty() =~= frames_view(
                            elements@,
                        ));
                    }
                    Ok(Some((current_pos, RespData::Array(elements))))
                },
            }
        },
        None => Ok(None),
    }
}

proof fn lemma_extend_nothing(rest: ParsedItems)
    ensures
        extend_items(Seq::empty(), 0, rest) == rest,
{
    if let ParsedItems::Complete(more, k) = rest {
        assert(Seq::<Frame>::empty() + more =~= more);
    }
}

proof fn lemma_extend_twice(a: Seq<Frame>, m: int, b: Seq<Frame>, n: int, rest: ParsedItems)
    ensures
        extend_items(a, m, extend_items(b, n, rest)) == extend_items(a + b, m + n, rest),
{
    if let ParsedItems::Complete(more, k) = rest {
        assert(a + (b + more) =~= (a + b) + more);
    }
}

/// Parses the frame at the front of `buffer`.
///
/// `Ok(Some((n, frame)))` where a whole frame stands there, `n` the bytes
/// it takes; `Ok(None)` where more bytes are needed; `Err` where no more
/// bytes can make the front a frame. Nothing is kept between calls: the
/// caller drops `n` bytes on success and calls again from the new front.
pub fn parse_resp(buffer: &[u8]) -> (r: Result<Option<(usize, RespData)>, ParseError>)
    ensures
        parse_agrees(r, parse_frame(buffer@)),
        r matches Ok(Some((n, _))) ==> 3 <= n <= buffer@.len(),
    decreases buffer@.len(), 1nat,
{
    proof {
        lemma_parse_bounds(buffer@);
    }
    if buffer.len() == 0 {
        return Ok(None);
    }
    let tag = buffer[0];
    if tag == TAG_SIMPLE {
        parse_simple_string(buffer)
    } else if tag == TAG_ERROR {
        parse_error(buffer)
    } else if tag == TAG_INTEGER {
        parse_integer(buffer)
    } else if tag == TAG_BULK {
        parse_bulk_string(buffer)
    } else if tag == TAG_ARRAY {
        parse_array(buffer)
    } else {
        Err(ParseError::BadPrefix)
    }
}

} // verus!
