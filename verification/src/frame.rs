//! Protocol frames, their mathematical model, and their wire form.

use crate::decimal::{decimal_text, push_i64, push_usize, MINUS_SIGN};
use vstd::prelude::*;

verus! {

pub const CR: u8 = 13;

pub const LF: u8 = 10;

pub const TAG_SIMPLE: u8 = 43;

pub const TAG_ERROR: u8 = 45;

pub const TAG_INTEGER: u8 = 58;

pub const TAG_BULK: u8 = 36;

pub const TAG_ARRAY: u8 = 42;

/// The longest bulk payload the codec accepts, in bytes (512 MiB).
pub const MAX_BULK_LEN: usize = 536870912;

/// The largest number of elements the codec accepts in one array.
pub const MAX_ARRAY_LEN: usize = 1048576;

/// The model of a frame: what a `RespData` stands for.
pub enum Frame {
    SimpleString(Seq<u8>),
    Error(Seq<u8>),
    Integer(int),
    BulkString(Seq<u8>),
    Array(Seq<Frame>),
    Null,
}

/// A protocol frame: a request or a reply.
#[derive(Debug, PartialEq, Eq)]
pub enum RespData {
    SimpleString(Vec<u8>),
    Error(Vec<u8>),
    Integer(i64),
    BulkString(Vec<u8>),
    Array(Vec<RespData>),
    Null,
}

impl View for RespData {
    type V = Frame;

    open spec fn view(&self) -> Frame
        decreases self,
    {
        match self {
            RespData::SimpleString(text) => Frame::SimpleString(text@),
            RespData::Error(text) => Frame::Error(text@),
            RespData::Integer(n) => Frame::Integer(*n as int),
            RespData::BulkString(bytes) => Frame::BulkString(bytes@),
            RespData::Array(items) => Frame::Array(
                Seq::new(
                    items.len() as nat,
                    |i: int|
                        if 0 <= i < items.len() {
                            items[i]@
                        } else {
                            Frame::Null
                        },
                ),
            ),
            RespData::Null => Frame::Null,
        }
    }
}

impl Clone for RespData {
    fn clone(&self) -> (copy: Self)
        ensures
            copy@ == self@,
        decreases self,
    {
        match self {
            RespData::SimpleString(text) => RespData::SimpleString(copy_bytes(text.as_slice())),
            RespData::Error(text) => RespData::Error(copy_bytes(text.as_slice())),
            RespData::Integer(n) => RespData::Integer(*n),
            RespData::BulkString(bytes) => RespData::BulkString(copy_bytes(bytes.as_slice())),
            RespData::Array(items) => {
                let mut copies: Vec<RespData> = Vec::new();
                let mut i: usize = 0;
                while i < items.len()
                    invariant
                        i <= items.len(),
                        *self == RespData::Array(*items),
                        copies.len() == i,
                        forall|j: int| 0 <= j < i ==> copies[j]@ == items[j]@,
                    decreases items.len() - i,
                {
                    assert(decreases_to!(*self => self->Array_0));
                    assert(decreases_to!(*items => items[i as int]));
                    copies.push(items[i].clone());
                    i += 1;
                }
                proof {
                    lemma_array_view(*items);
                    lemma_array_view(copies);
                    assert(frames_view(copies@) =~= frames_view(items@));
                }
                RespData::Array(copies)
            },
            RespData::Null => RespData::Null,
        }
    }
}

/// A fresh vector with the bytes of `bytes`.
pub fn copy_bytes(bytes: &[u8]) -> (copy: Vec<u8>)
    ensures
        copy@ == bytes@,
{
    let mut copy: Vec<u8> = Vec::new();
    push_bytes(&mut copy, bytes);
    assert(copy@ =~= bytes@);
    copy
}

/// The models of a vector of frames, element by element.
pub open spec fn frames_view(items: Seq<RespData>) -> Seq<Frame> {
    Seq::new(items.len(), |i: int| items[i]@)
}

pub proof fn lemma_array_view(items: Vec<RespData>)
    ensures
        RespData::Array(items)@ == Frame::Array(frames_view(items@)),
{
    lemma_view_of_array(RespData::Array(items));
}

pub proof fn lemma_view_of_array(d: RespData)
    requires
        d is Array,
    ensures
        d@ == Frame::Array(frames_view(d->Array_0@)),
{
    assert(d@ is Array);
    assert(d@->Array_0.len() == d->Array_0.len());
    assert(d@->Array_0 =~= frames_view(d->Array_0@));
}

/// A line of text may hold neither a carriage return nor a line feed.
pub open spec fn is_line_text(text: Seq<u8>) -> bool {
    forall|i: int| 0 <= i < text.len() ==> #[trigger] text[i] != CR && text[i] != LF
}

/// The frames that the wire can carry faithfully: text without line
/// breaks, integers of 64 bits, payloads and arrays within the codec's
/// limits.
pub open spec fn frame_wf(f: Frame) -> bool
    decreases f,
{
    match f {
        Frame::SimpleString(text) => is_line_text(text),
        Frame::Error(text) => is_line_text(text),
        Frame::Integer(n) => i64::MIN <= n <= i64::MAX,
        Frame::BulkString(bytes) => bytes.len() <= MAX_BULK_LEN,
        Frame::Array(items) => items.len() <= MAX_ARRAY_LEN && forall|i: int|
            0 <= i < items.len() ==> frame_wf(#[trigger] items[i]),
        Frame::Null => true,
    }
}

pub open spec fn crlf() -> Seq<u8> {
    seq![CR, LF]
}

/// The wire form of a frame.
pub open spec fn encode(f: Frame) -> Seq<u8>
    decreases f, 1nat,
{
    match f {
        Frame::SimpleString(text) => seq![TAG_SIMPLE] + text + crlf(),
        Frame::Error(text) => seq![TAG_ERROR] + text + crlf(),
        Frame::Integer(n) => seq![TAG_INTEGER] + decimal_text(n) + crlf(),
        Frame::BulkString(bytes) => seq![TAG_BULK] + decimal_text(bytes.len() as int) + crlf()
            + bytes + crlf(),
        Frame::Array(items) => seq![TAG_ARRAY] + decimal_text(items.len() as int) + crlf()
            + encode_all(items),
        Frame::Null => seq![TAG_BULK, MINUS_SIGN, 49u8, CR, LF],
    }
}

/// The wire forms of a sequence of frames, one after the other.
pub open spec fn encode_all(items: Seq<Frame>) -> Seq<u8>
    decreases items, 0nat,
{
    if items.len() == 0 {
        Seq::empty()
    } else {
        encode(items[0]) + encode_all(items.drop_first())
    }
}

pub proof fn lemma_encode_all_push(items: Seq<Frame>, last: Frame)
    ensures
        encode_all(items.push(last)) == encode_all(items) + encode(last),
    decreases items.len(),
{
    if items.len() == 0 {
        let single = items.push(last);
        assert(single.drop_first() =~= Seq::<Frame>::empty());
        assert(encode_all(single.drop_first()) =~= Seq::<u8>::empty());
        assert(encode_all(single) == encode(single[0]) + encode_all(single.drop_first()));
        assert(encode_all(items.push(last)) =~= encode(last) + Seq::<u8>::empty());
        assert(encode_all(items) + encode(last) =~= encode(last));
        assert(encode(last) + Seq::<u8>::empty() =~= encode(last));
    } else {
        lemma_encode_all_push(items.drop_first(), last);
        assert(items.push(last).drop_first() =~= items.drop_first().push(last));
        assert(encode(items[0]) + (encode_all(items.drop_first()) + encode(last)) =~= (encode(
            items[0],
        ) + encode_all(items.drop_first())) + encode(last));
    }
}

pub fn push_crlf(out: &mut Vec<u8>)
    ensures
        final(out)@ == old(out)@ + crlf(),
{
    out.push(CR);
    out.push(LF);
    assert(final(out)@ =~= old(out)@ + crlf());
}

/// Appends `bytes` to `out`.
pub fn push_bytes(out: &mut Vec<u8>, bytes: &[u8])
    ensures
        final(out)@ == old(out)@ + bytes@,
{
    let mut i: usize = 0;
    while i < bytes.len()
        invariant
            i <= bytes.len(),
            out@ == old(out)@ + bytes@.take(i as int),
        decreases bytes.len() - i,
    {
        out.push(bytes[i]);
        assert(bytes@.take(i + 1) =~= bytes@.take(i as int).push(bytes@[i as int]));
        assert(out@ =~= old(out)@ + bytes@.take(i + 1));
        i += 1;
    }
    assert(bytes@.take(bytes.len() as int) =~= bytes@);
}

/// Appends the wire form of `data` to `out`.
pub fn write_frame(data: &RespData, out: &mut Vec<u8>)
    ensures
        final(out)@ == old(out)@ + encode(data@),
    decreases data,
{
    match data {
        RespData::SimpleString(text) => {
            out.push(TAG_SIMPLE);
            push_bytes(out, text.as_slice());
            push_crlf(out);
            assert(final(out)@ =~= old(out)@ + encode(data@));
        },
        RespData::Error(text) => {
            out.push(TAG_ERROR);
            push_bytes(out, text.as_slice());
            push_crlf(out);
            assert(final(out)@ =~= old(out)@ + encode(data@));
        },
        RespData::Integer(n) => {
            out.push(TAG_INTEGER);
            push_i64(out, *n);
            push_crlf(out);
            assert(final(out)@ =~= old(out)@ + encode(data@));
        },
        RespData::BulkString(bytes) => {
            out.push(TAG_BULK);
            push_usize(out, bytes.len());
            push_crlf(out);
            push_bytes(out, bytes.as_slice());
            push_crlf(out);
            assert(final(out)@ =~= old(out)@ + encode(data@));
        },
        RespData::Array(items) => {
            out.push(TAG_ARRAY);
            push_usize(out, items.len());
            push_crlf(out);
            let ghost header = out@;
            let ghost models = frames_view(items@);
            proof {
                lemma_array_view(*items);
                assert(header =~= old(out)@ + (seq![TAG_ARRAY] + decimal_text(items.len() as int)
                    + crlf()));
            }
            let mut i: usize = 0;
            while i < items.len()
                invariant
                    i <= items.len(),
                    *data == RespData::Array(*items),
                    models == frames_view(items@),
                    out@ == header + encode_all(models.take(i as int)),
                decreases items.len() - i,
            {
                assert(decreases_to!(*data => data->Array_0));
                assert(decreases_to!(*items => items[i as int]));
                write_frame(&items[i], out);
                proof {
                    assert(models.take(i + 1) =~= models.take(i as int).push(models[i as int]));
                    lemma_encode_all_push(models.take(i as int), models[i as int]);
                    assert(out@ =~= header + encode_all(models.take(i + 1)));
                }
                i += 1;
            }
            proof {
                assert(models.take(items.len() as int) =~= models);
                assert(final(out)@ =~= old(out)@ + encode(data@));
            }
        },
        RespData::Null => {
            out.push(TAG_BULK);
            out.push(MINUS_SIGN);
            out.push(49u8);
            out.push(CR);
            out.push(LF);
            assert(final(out)@ =~= old(out)@ + encode(data@));
        },
    }
}

/// The wire form of `data`. Total on all frames; nested arrays are written
/// depth first.
pub fn serialize_resp(data: &RespData) -> (out: Vec<u8>)
    ensures
        out@ == encode(data@),
{
    let mut out: Vec<u8> = Vec::new();
    write_frame(data, &mut out);
    assert(out@ =~= encode(data@));
    out
}

} // verus!
