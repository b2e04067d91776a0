//! Writing RESP values.
use vstd::prelude::*;
use vstd::utf8::encode_utf8;
use super::value::{RespValue, RespView};
use crate::text::{decimal, push_decimal, push_digits};

verus! {

/// The end of a line.
pub open spec fn crlf() -> Seq<u8> {
    seq![13u8, 10u8]
}

/// A type byte, a line of bytes and the end of the line.
pub open spec fn line_of(tag: u8, bytes: Seq<u8>) -> Seq<u8> {
    seq![tag] + bytes + crlf()
}

/// A bulk string: its length, and the bytes themselves.
pub open spec fn bulk_of(data: Seq<u8>) -> Seq<u8> {
    line_of(36, decimal(data.len() as int)) + data + crlf()
}

/// The bytes that stand for a value.
pub open spec fn encoded(value: RespView) -> Seq<u8>
    decreases value,
{
    match value {
        RespView::SimpleString(s) => line_of(43, encode_utf8(s)),
        RespView::Error(s) => line_of(45, encode_utf8(s)),
        RespView::Integer(n) => line_of(58, decimal(n)),
        RespView::BulkString(d) => bulk_of(d),
        RespView::Null => line_of(36, decimal(-1)),
        RespView::Array(items) => line_of(42, decimal(items.len() as int)) + encoded_all(items),
    }
}

/// The bytes of several values, one after the other.
pub open spec fn encoded_all(items: Seq<RespView>) -> Seq<u8>
    decreases items,
{
    if items.len() == 0 {
        seq![]
    } else {
        encoded_all(items.subrange(0, items.len() - 1)) + encoded(items[items.len() - 1])
    }
}

fn push_bytes(out: &mut Vec<u8>, bytes: &[u8])
    ensures
        final(out)@ == old(out)@ + bytes@,
{
    out.extend_from_slice(bytes);
    assert(out@ =~= old(out)@ + bytes@);
}

fn push_crlf(out: &mut Vec<u8>)
    ensures
        final(out)@ == old(out)@ + crlf(),
{
    out.push(13);
    out.push(10);
    assert(out@ =~= old(out)@ + crlf());
}

fn text_line(tag: u8, s: &str) -> (out: Vec<u8>)
    ensures
        out@ == line_of(tag, encode_utf8(s@)),
{
    let mut out: Vec<u8> = Vec::new();
    out.push(tag);
    push_bytes(&mut out, s.as_bytes());
    push_crlf(&mut out);
    assert(out@ =~= line_of(tag, encode_utf8(s@)));
    out
}

/// Encode a RESP simple string: `+<s>\r\n`
pub fn encode_simple_string(s: &str) -> (out: Vec<u8>)
    ensures
        out@ == encoded(RespView::SimpleString(s@)),
{
    text_line(43, s)
}

/// Encode a RESP error: `-<msg>\r\n`
pub fn encode_error(msg: &str) -> (out: Vec<u8>)
    ensures
        out@ == encoded(RespView::Error(msg@)),
{
    text_line(45, msg)
}

/// Encode a RESP integer: `:<n>\r\n`
pub fn encode_integer(n: i64) -> (out: Vec<u8>)
    ensures
        out@ == encoded(RespView::Integer(n as int)),
{
    let mut out: Vec<u8> = Vec::new();
    out.push(58);
    push_decimal(&mut out, n);
    push_crlf(&mut out);
    assert(out@ =~= line_of(58, decimal(n as int)));
    out
}

/// Encode a RESP bulk string: `$<len>\r\n<data>\r\n`
pub fn encode_bulk_string(data: &[u8]) -> (out: Vec<u8>)
    ensures
        out@ == encoded(RespView::BulkString(data@)),
{
    let mut out: Vec<u8> = Vec::new();
    out.push(36);
    push_digits(&mut out, data.len() as u64);
    push_crlf(&mut out);
    push_bytes(&mut out, data);
    push_crlf(&mut out);
    assert(out@ =~= bulk_of(data@));
    out
}

/// Encode a RESP null (null bulk string): `$-1\r\n`
pub fn encode_null() -> (out: Vec<u8>)
    ensures
        out@ == encoded(RespView::Null),
{
    let mut out: Vec<u8> = Vec::new();
    out.push(36);
    push_decimal(&mut out, -1);
    push_crlf(&mut out);
    assert(out@ =~= line_of(36, decimal(-1)));
    out
}

/// Encode a RESP array.
pub fn encode_array(items: &[RespValue]) -> (out: Vec<u8>)
    ensures
        out@ == encoded(RespView::Array(items@.map_values(|v: RespValue| v@))),
    decreases items@,
{
    let mut out: Vec<u8> = Vec::new();
    let ghost views = items@.map_values(|v: RespValue| v@);
    out.push(42);
    push_digits(&mut out, items.len() as u64);
    push_crlf(&mut out);
    let ghost head = line_of(42, decimal(items@.len() as int));
    assert(views.subrange(0, 0) =~= Seq::<RespView>::empty());
    assert(out@ =~= head + encoded_all(views.subrange(0, 0)));
    let mut i: usize = 0;
    while i < items.len()
        invariant
            i <= items@.len(),
            views == items@.map_values(|v: RespValue| v@),
            out@ == head + encoded_all(views.subrange(0, i as int)),
        decreases items@.len() - i,
    {
        let ghost before = out@;
        let item = &items[i];
        assert(decreases_to!(items@ => items@[i as int]));
        let bytes: Vec<u8> = match item {
            RespValue::SimpleString(s) => encode_simple_string(s),
            RespValue::Error(e) => encode_error(e),
            RespValue::Integer(n) => encode_integer(*n),
            RespValue::BulkString(d) => encode_bulk_string(d),
            RespValue::Null => encode_null(),
            RespValue::Array(inner) => {
                assert(item@->Array_0 =~= inner@.map_values(|v: RespValue| v@));
                encode_array(inner)
            },
        };
        push_bytes(&mut out, bytes.as_slice());
        let ghost upto = views.subrange(0, i + 1);
        assert(upto.subrange(0, upto.len() - 1) =~= views.subrange(0, i as int));
        assert(out@ =~= head + encoded_all(upto));
        i += 1;
    }
    assert(views.subrange(0, i as int) =~= views);
    out
}

} // verus!
