//! What holds between writing and reading RESP values.
use vstd::prelude::*;
use vstd::utf8::{
    decode_utf8_encode_utf8, encode_utf8, encode_utf8_decode_utf8, encode_utf8_valid_utf8, valid_utf8,
};
use super::encoder::{bulk_of, crlf, encoded, encoded_all, line_of};
use super::parser::{
    crlf_at, header, lemma_consumed_in_buffer, lemma_items_in_buffer, lemma_line_end, lemma_line_end_is, line_end, parsed,
    parsed_items, parsed_number, ItemsView, ParseView,
};
use super::value::RespView;
use crate::text::{decimal, digits, hex_digit, is_digit, lemma_digits_are_digits, lemma_read_decimal, read_int, IntError};
use crate::utf8::{lemma_ascii_text, utf8_error_text};

verus! {

/// No CRLF stands within the bytes.
pub open spec fn one_line(bytes: Seq<u8>) -> bool {
    forall|i: int| !#[trigger] crlf_at(bytes, i)
}

/// A value that can be told from its bytes: its texts hold no CRLF, and its numbers and
/// lengths fit in 64 bits with sign, as those of every value in memory do.
pub open spec fn sendable(value: RespView) -> bool
    decreases value,
{
    match value {
        RespView::SimpleString(s) => one_line(encode_utf8(s)),
        RespView::Error(s) => one_line(encode_utf8(s)),
        RespView::Integer(n) => i64::MIN <= n <= i64::MAX,
        RespView::BulkString(d) => d.len() <= i64::MAX,
        RespView::Null => true,
        RespView::Array(items) => items.len() <= i64::MAX && forall|i: int|
            0 <= i < items.len() ==> sendable(#[trigger] items[i]),
    }
}

proof fn lemma_header_of(tag: u8, bytes: Seq<u8>, rest: Seq<u8>)
    requires
        one_line(bytes),
    ensures
        line_end(line_of(tag, bytes) + rest, 1) == Some(bytes.len() + 1int),
        header(line_of(tag, bytes) + rest) == Some(bytes),
{
    let buf = line_of(tag, bytes) + rest;
    let end = bytes.len() + 1int;
    assert(buf[end] == 13);
    assert(buf[end + 1] == 10);
    assert forall|i: int| 1 <= i < end implies !#[trigger] crlf_at(buf, i) by {
        assert(!crlf_at(bytes, i - 1));
        assert(buf[i] == bytes[i - 1]);
        if i + 1 < end {
            assert(buf[i + 1] == bytes[i]);
        }
    }
    lemma_line_end_is(buf, 1, end);
    assert(buf.subrange(1, end) =~= bytes);
}

proof fn lemma_decimal_line(n: int)
    ensures
        one_line(decimal(n)),
        vstd::utf8::valid_utf8(decimal(n)),
{
    let m = if n < 0 { (-n) as nat } else { n as nat };
    lemma_digits_are_digits(m);
    assert forall|i: int| 0 <= i < decimal(n).len() implies 14 < #[trigger] decimal(n)[i] < 128 by {
        if n < 0 {
            if i > 0 {
                assert(is_digit(digits(m)[i - 1]));
            }
        } else {
            assert(is_digit(digits(m)[i]));
        }
    }
    lemma_ascii_text(decimal(n));
}

proof fn lemma_number_of(tag: u8, n: int, what: Seq<char>, rest: Seq<u8>)
    requires
        i64::MIN <= n <= i64::MAX,
    ensures
        line_end(line_of(tag, decimal(n)) + rest, 1) == Some(decimal(n).len() + 1int),
        parsed_number(line_of(tag, decimal(n)) + rest, what) == Ok::<Option<int>, Seq<char>>(Some(n)),
{
    lemma_decimal_line(n);
    lemma_header_of(tag, decimal(n), rest);
    lemma_read_decimal(n, i64::MIN as int, i64::MAX as int);
}

/// The first of several values comes first.
pub proof fn lemma_encoded_first(items: Seq<RespView>)
    requires
        items.len() > 0,
    ensures
        encoded_all(items) == encoded(items[0]) + encoded_all(items.skip(1)),
    decreases items.len(),
{
    let front = items.subrange(0, items.len() - 1);
    let tail = items.skip(1);
    if items.len() == 1 {
        assert(front =~= Seq::<RespView>::empty());
        assert(tail =~= Seq::<RespView>::empty());
        assert(encoded_all(front) =~= Seq::<u8>::empty());
        assert(encoded_all(tail) =~= Seq::<u8>::empty());
        assert(encoded_all(items) =~= encoded(items[0]) + encoded_all(tail));
    } else {
        lemma_encoded_first(front);
        assert(front.skip(1) =~= tail.subrange(0, tail.len() - 1));
        assert(encoded_all(items) =~= encoded(items[0]) + encoded_all(tail));
    }
}

proof fn lemma_parse_line(value: RespView, rest: Seq<u8>)
    requires
        sendable(value),
        value is SimpleString || value is Error || value is Integer || value is Null,
    ensures
        parsed(encoded(value) + rest) == ParseView::Complete(value, encoded(value).len() as int),
{
    let buf = encoded(value) + rest;
    match value {
        RespView::SimpleString(s) => {
            lemma_header_of(43, encode_utf8(s), rest);
            encode_utf8_valid_utf8(s);
            encode_utf8_decode_utf8(s);
            assert(buf[0] == 43);
        },
        RespView::Error(s) => {
            lemma_header_of(45, encode_utf8(s), rest);
            encode_utf8_valid_utf8(s);
            encode_utf8_decode_utf8(s);
            assert(buf[0] == 45);
        },
        RespView::Integer(n) => {
            lemma_number_of(58, n, "integer"@, rest);
            assert(buf[0] == 58);
        },
        _ => {
            lemma_number_of(36, -1, "bulk string length"@, rest);
            assert(buf[0] == 36);
        },
    }
}

proof fn lemma_parse_bulk(d: Seq<u8>, rest: Seq<u8>)
    requires
        d.len() <= i64::MAX,
    ensures
        parsed(bulk_of(d) + rest) == ParseView::Complete(RespView::BulkString(d), bulk_of(d).len() as int),
{
    let buf = bulk_of(d) + rest;
    let head = line_of(36, decimal(d.len() as int));
    let behind = d + crlf() + rest;
    assert(buf =~= head + behind);
    lemma_number_of(36, d.len() as int, "bulk string length"@, behind);
    let start = head.len() as int;
    assert(buf[0] == 36);
    assert(buf[start + d.len()] == 13);
    assert(buf[start + d.len() + 1] == 10);
    assert(buf.subrange(start, start + d.len()) =~= d);
}

proof fn lemma_parse_items(items: Seq<RespView>, rest: Seq<u8>)
    requires
        items.len() <= i64::MAX,
        parsed_items(encoded_all(items) + rest, items.len()) == ItemsView::Complete(
            items,
            encoded_all(items).len() as int,
        ),
    ensures
        parsed(encoded(RespView::Array(items)) + rest) == ParseView::Complete(
            RespView::Array(items),
            encoded(RespView::Array(items)).len() as int,
        ),
{
    let buf = encoded(RespView::Array(items)) + rest;
    let head = line_of(42, decimal(items.len() as int));
    let behind = encoded_all(items) + rest;
    assert(buf =~= head + behind);
    lemma_number_of(42, items.len() as int, "array count"@, behind);
    assert(buf[0] == 42);
    assert(buf.skip(head.len() as int) =~= behind);
}

/// Reading what was written gives the value back, whatever bytes follow it, and takes exactly
/// the bytes that were written.
pub proof fn lemma_parse_encoded(value: RespView, rest: Seq<u8>)
    requires
        sendable(value),
    ensures
        parsed(encoded(value) + rest) == ParseView::Complete(value, encoded(value).len() as int),
    decreases value,
{
    match value {
        RespView::BulkString(d) => {
            lemma_parse_bulk(d, rest);
        },
        RespView::Array(items) => {
            assert forall|i: int| 0 <= i < items.len() implies sendable(#[trigger] items[i]) by {}
            lemma_items_encoded(items, rest);
            lemma_parse_items(items, rest);
        },
        _ => {
            lemma_parse_line(value, rest);
        },
    }
}

proof fn lemma_items_encoded(items: Seq<RespView>, rest: Seq<u8>)
    requires
        forall|i: int| 0 <= i < items.len() ==> sendable(#[trigger] items[i]),
    ensures
        parsed_items(encoded_all(items) + rest, items.len()) == ItemsView::Complete(
            items,
            encoded_all(items).len() as int,
        ),
    decreases items,
{
    if items.len() == 0 {
        assert(items =~= Seq::<RespView>::empty());
    } else {
        let tail = items.subrange(1, items.len() as int);
        assert(tail =~= items.skip(1));
        lemma_encoded_first(items);
        let behind = encoded_all(tail) + rest;
        let buf = encoded_all(items) + rest;
        assert(buf =~= encoded(items[0]) + behind);
        assert(sendable(items[0]));
        lemma_parse_encoded(items[0], behind);
        lemma_consumed_in_buffer(buf);
        assert(buf.skip(encoded(items[0]).len() as int) =~= behind);
        assert forall|i: int| 0 <= i < tail.len() implies sendable(#[trigger] tail[i]) by {
            assert(sendable(items[i + 1]));
        }
        lemma_items_encoded(tail, rest);
        assert(seq![items[0]] + tail =~= items);
    }
}

proof fn lemma_line_end_stable(buf: Seq<u8>, more: Seq<u8>)
    requires
        line_end(buf, 1) is Some,
    ensures
        line_end(buf + more, 1) == line_end(buf, 1),
        header(buf + more) == header(buf),
{
    lemma_line_end(buf, 1);
    let end = line_end(buf, 1)->0;
    let longer = buf + more;
    assert(crlf_at(longer, end));
    assert forall|i: int| 1 <= i < end implies !#[trigger] crlf_at(longer, i) by {
        assert(!crlf_at(buf, i));
    }
    lemma_line_end_is(longer, 1, end);
    assert(longer.subrange(1, end) =~= buf.subrange(1, end));
}

/// Bytes that arrive later do not change a value, or an error, that was read already.
pub proof fn lemma_parse_stable(buf: Seq<u8>, more: Seq<u8>)
    ensures
        !(parsed(buf) is Incomplete) ==> parsed(buf + more) == parsed(buf),
    decreases buf.len(), 0int,
{
    if !(parsed(buf) is Incomplete) && (buf[0] == 43 || buf[0] == 45 || buf[0] == 58 || buf[0] == 36 || buf[0] == 42) {
        lemma_line_end_stable(buf, more);
        lemma_line_end(buf, 1);
        let start = line_end(buf, 1)->0 + 2;
        let longer = buf + more;
        if buf[0] == 36 {
            if let Ok(Some(len)) = parsed_number(buf, "bulk string length"@) {
                if len >= 0 {
                    assert(crlf_at(longer, start + len) == crlf_at(buf, start + len));
                    assert(longer.subrange(start, start + len) =~= buf.subrange(start, start + len));
                }
            }
        } else if buf[0] == 42 {
            if let Ok(Some(count)) = parsed_number(buf, "array count"@) {
                if count >= 0 {
                    assert(longer.skip(start) =~= buf.skip(start) + more);
                    lemma_items_stable(buf.skip(start), more, count as nat);
                }
            }
        }
    }
}

proof fn lemma_items_stable(rest: Seq<u8>, more: Seq<u8>, count: nat)
    ensures
        !(parsed_items(rest, count) is Incomplete) ==> parsed_items(rest + more, count) == parsed_items(rest, count),
    decreases rest.len(), 1int,
{
    if count > 0 && !(parsed_items(rest, count) is Incomplete) {
        lemma_parse_stable(rest, more);
        if let ParseView::Complete(_, n) = parsed(rest) {
            lemma_consumed_in_buffer(rest);
            assert((rest + more).skip(n) =~= rest.skip(n) + more);
            lemma_items_stable(rest.skip(n), more, (count - 1) as nat);
        }
    }
}

/// The line behind the type byte is the same in every part of the buffer that holds it.
proof fn lemma_line_end_exact(buf: Seq<u8>, n: int)
    requires
        line_end(buf, 1) matches Some(end) && end + 2 <= n <= buf.len(),
    ensures
        line_end(buf.take(n), 1) == line_end(buf, 1),
        header(buf.take(n)) == header(buf),
{
    lemma_line_end(buf, 1);
    let end = line_end(buf, 1)->0;
    let part = buf.take(n);
    assert(crlf_at(part, end));
    assert forall|i: int| 1 <= i < end implies !#[trigger] crlf_at(part, i) by {
        assert(!crlf_at(buf, i));
    }
    lemma_line_end_is(part, 1, end);
    assert(part.subrange(1, end) =~= buf.subrange(1, end));
}

proof fn lemma_taken_suffices(buf: Seq<u8>)
    ensures
        parsed(buf) matches ParseView::Complete(v, n) ==> parsed(buf.take(n)) == ParseView::Complete(v, n),
    decreases buf.len(), 0int,
{
    if let ParseView::Complete(_, n) = parsed(buf) {
        lemma_consumed_in_buffer(buf);
        lemma_line_end(buf, 1);
        let start = line_end(buf, 1)->0 + 2;
        let part = buf.take(n);
        assert(part[0] == buf[0]);
        if buf[0] == 36 {
            lemma_line_end_exact(buf, n);
            if let Ok(Some(len)) = parsed_number(buf, "bulk string length"@) {
                if len >= 0 {
                    assert(crlf_at(part, start + len) == crlf_at(buf, start + len));
                    assert(part.subrange(start, start + len) =~= buf.subrange(start, start + len));
                }
            }
        } else if buf[0] == 42 {
            if let Ok(Some(count)) = parsed_number(buf, "array count"@) {
                if count >= 0 {
                    lemma_items_in_buffer(buf.skip(start), count as nat);
                    lemma_items_taken_suffice(buf.skip(start), count as nat);
                    assert(part.skip(start) =~= buf.skip(start).take(n - start));
                }
            }
            lemma_line_end_exact(buf, n);
        } else {
            lemma_line_end_exact(buf, n);
        }
    }
}

proof fn lemma_items_taken_suffice(rest: Seq<u8>, count: nat)
    ensures
        parsed_items(rest, count) matches ItemsView::Complete(values, m) ==> parsed_items(rest.take(m), count)
            == ItemsView::Complete(values, m),
    decreases rest.len(), 1int,
{
    if let ItemsView::Complete(_, m) = parsed_items(rest, count) {
        lemma_items_in_buffer(rest, count);
        if count > 0 {
            if let ParseView::Complete(_, n) = parsed(rest) {
                lemma_consumed_in_buffer(rest);
                lemma_taken_suffices(rest);
                lemma_items_in_buffer(rest.skip(n), (count - 1) as nat);
                lemma_items_taken_suffice(rest.skip(n), (count - 1) as nat);
                assert(rest.take(m) =~= rest.take(n) + rest.subrange(n, m));
                lemma_parse_stable(rest.take(n), rest.subrange(n, m));
                assert(rest.take(m).skip(n) =~= rest.skip(n).take(m - n));
            }
        }
    }
}

/// What a value is said to take is exact: those bytes alone give the value, and with any byte
/// less it is still incomplete.
pub proof fn lemma_consumed_exactly(buf: Seq<u8>, k: int)
    ensures
        parsed(buf) matches ParseView::Complete(v, n) ==> {
            &&& 3 <= n <= buf.len()
            &&& parsed(buf.take(n)) == ParseView::Complete(v, n)
            &&& 0 <= k < n ==> parsed(buf.take(k)) is Incomplete
        },
{
    lemma_consumed_in_buffer(buf);
    lemma_taken_suffices(buf);
    if let ParseView::Complete(_, n) = parsed(buf) {
        if 0 <= k < n {
            assert(buf.take(k) + buf.skip(k) =~= buf);
            lemma_parse_stable(buf.take(k), buf.skip(k));
            lemma_consumed_in_buffer(buf.take(k));
        }
    }
}

/// A value that has arrived in part is waited for: what is read of it is neither a value nor an
/// error.
pub proof fn lemma_part_is_incomplete(value: RespView, n: int)
    requires
        sendable(value),
        0 <= n < encoded(value).len(),
    ensures
        parsed(encoded(value).take(n)) is Incomplete,
{
    let (part, rest) = (encoded(value).take(n), encoded(value).skip(n));
    assert(part + rest =~= encoded(value));
    assert(encoded(value) + Seq::<u8>::empty() =~= encoded(value));
    lemma_parse_encoded(value, Seq::empty());
    lemma_parse_stable(part, rest);
    lemma_consumed_in_buffer(part);
}

/// Bytes stand for one value only: two values whose bytes begin a buffer are the same.
pub proof fn lemma_unambiguous(a: RespView, b: RespView, behind_a: Seq<u8>, behind_b: Seq<u8>)
    requires
        sendable(a),
        sendable(b),
        encoded(a) + behind_a == encoded(b) + behind_b,
    ensures
        a == b,
{
    lemma_parse_encoded(a, behind_a);
    lemma_parse_encoded(b, behind_b);
}

/// How values are written: a type byte, the text or number or length, the end of the line, and
/// what a bulk string or an array holds.
pub proof fn lemma_bytes_of_values(text: Seq<char>, n: int, data: Seq<u8>, items: Seq<RespView>, item: RespView)
    ensures
        encoded(RespView::SimpleString(text)) == seq![43u8] + encode_utf8(text) + seq![13u8, 10u8],
        encoded(RespView::Error(text)) == seq![45u8] + encode_utf8(text) + seq![13u8, 10u8],
        encoded(RespView::Integer(n)) == seq![58u8] + decimal(n) + seq![13u8, 10u8],
        encoded(RespView::BulkString(data)) == seq![36u8] + decimal(data.len() as int) + seq![13u8, 10u8] + data + seq![
            13u8,
            10u8,
        ],
        encoded(RespView::Null) == seq![36u8, 45u8, 49u8, 13u8, 10u8],
        encoded(RespView::Array(items)) == seq![42u8] + decimal(items.len() as int) + seq![13u8, 10u8] + encoded_all(items),
        encoded_all(Seq::empty()) == Seq::<u8>::empty(),
        encoded_all(items.push(item)) == encoded_all(items) + encoded(item),
{
    assert(items.push(item).subrange(0, items.len() as int) =~= items);
    assert(decimal(-1) =~= seq![45u8, 49u8]);
    assert(encoded(RespView::Null) =~= seq![36u8, 45u8, 49u8, 13u8, 10u8]);
}

/// What is read is what stands there: the type byte says which sort of value it is, a text is that of
/// the line, a number is what the line writes, a bulk string is as long as its line says and ends the
/// bytes that are taken, and an array has as many items as its line says.
pub proof fn lemma_read_as_written(buf: Seq<u8>)
    ensures
        parsed(buf) matches ParseView::Complete(value, n) ==> {
            let line = buf.subrange(1, line_end(buf, 1)->0);
            &&& line_end(buf, 1) matches Some(end) && 1 <= end && end + 2 <= n <= buf.len()
            &&& buf[n - 2] == 13 || !(value is SimpleString || value is Error || value is Integer || value is BulkString)
            &&& match value {
                RespView::SimpleString(s) => buf[0] == 43 && encode_utf8(s) == line && line.len() == n - 3,
                RespView::Error(s) => buf[0] == 45 && encode_utf8(s) == line && line.len() == n - 3,
                RespView::Integer(k) => buf[0] == 58 && line.len() == n - 3 && read_int(
                    line,
                    i64::MIN as int,
                    i64::MAX as int,
                ) == Ok::<int, IntError>(k),
                RespView::BulkString(d) => {
                    &&& buf[0] == 36
                    &&& read_int(line, i64::MIN as int, i64::MAX as int) == Ok::<int, IntError>(d.len() as int)
                    &&& n == line.len() + 3 + d.len() + 2
                    &&& d == buf.subrange(n - 2 - d.len(), n - 2)
                    &&& buf[n - 2] == 13 && buf[n - 1] == 10
                },
                RespView::Null => {
                    &&& buf[0] == 36 || buf[0] == 42
                    &&& line.len() == n - 3
                    &&& read_int(line, i64::MIN as int, i64::MAX as int) matches Ok(k) && k < 0
                },
                RespView::Array(items) => {
                    &&& buf[0] == 42
                    &&& read_int(line, i64::MIN as int, i64::MAX as int) == Ok::<int, IntError>(items.len() as int)
                },
            }
        },
{
    if let ParseView::Complete(value, n) = parsed(buf) {
        lemma_line_end(buf, 1);
        lemma_consumed_in_buffer(buf);
        let end = line_end(buf, 1)->0;
        let line = buf.subrange(1, end);
        if valid_utf8(line) {
            decode_utf8_encode_utf8(line);
        }
        if buf[0] == 42 {
            if let Ok(Some(count)) = parsed_number(buf, "array count"@) {
                if count >= 0 {
                    lemma_items_in_buffer(buf.skip(end + 2), count as nat);
                }
            }
        }
    }
}

/// The items of an array stand one behind the other: the first at once, the others behind it.
pub proof fn lemma_items_in_turn(rest: Seq<u8>, count: nat)
    ensures
        parsed_items(rest, 0) == ItemsView::Complete(Seq::empty(), 0),
        count > 0 ==> (parsed_items(rest, count) matches ItemsView::Complete(values, m) ==> {
            &&& parsed(rest) matches ParseView::Complete(first, n) && 0 < n <= m && values.len() == count && values[0] == first
                && parsed_items(rest.skip(n), (count - 1) as nat) == ItemsView::Complete(values.skip(1), m - n)
        }),
{
    if count > 0 {
        if let ItemsView::Complete(values, m) = parsed_items(rest, count) {
            lemma_consumed_in_buffer(rest);
            let n = parsed(rest)->Complete_1;
            lemma_items_in_buffer(rest.skip(n), (count - 1) as nat);
            lemma_items_in_buffer(rest, count);
            let tail = parsed_items(rest.skip(n), (count - 1) as nat)->Complete_0;
            assert(values.skip(1) =~= tail);
        }
    }
}

/// A buffer without bytes is waited on; one that begins with none of the type bytes is an error.
pub proof fn lemma_first_byte(buf: Seq<u8>)
    ensures
        buf.len() == 0 ==> parsed(buf) is Incomplete,
        buf.len() > 0 && buf[0] != 43 && buf[0] != 45 && buf[0] != 58 && buf[0] != 36 && buf[0] != 42 ==> parsed(
            buf,
        ) is Error,
{
}

/// What the errors say: a line that is no text, a number that is none, a bulk string without its end,
/// and a byte that begins no value.
pub proof fn lemma_parse_errors(buf: Seq<u8>, line: Seq<u8>)
    requires
        buf.len() > 0,
        header(buf) == Some(line),
    ensures
        ({
            let number = read_int(line, i64::MIN as int, i64::MAX as int);
            let bad = utf8_error_text(line);
            &&& !valid_utf8(line) ==> {
                &&& buf[0] == 43 ==> parsed(buf) == ParseView::Error("invalid UTF-8 in "@ + "simple string"@ + ": "@ + bad)
                &&& buf[0] == 45 ==> parsed(buf) == ParseView::Error("invalid UTF-8 in "@ + "error"@ + ": "@ + bad)
                &&& buf[0] == 58 ==> parsed(buf) == ParseView::Error("invalid UTF-8 in "@ + "integer"@ + ": "@ + bad)
                &&& buf[0] == 36 ==> parsed(buf) == ParseView::Error(
                    "invalid UTF-8 in "@ + "bulk string length"@ + ": "@ + bad,
                )
                &&& buf[0] == 42 ==> parsed(buf) == ParseView::Error("invalid UTF-8 in "@ + "array count"@ + ": "@ + bad)
            }
            &&& valid_utf8(line) ==> (number matches Err(e) ==> {
                let why = match e {
                    IntError::Empty => "cannot parse integer from empty string"@,
                    IntError::InvalidDigit => "invalid digit found in string"@,
                    IntError::TooLarge => "number too large to fit in target type"@,
                    IntError::TooSmall => "number too small to fit in target type"@,
                };
                &&& buf[0] == 58 ==> parsed(buf) == ParseView::Error("invalid "@ + "integer"@ + ": "@ + why)
                &&& buf[0] == 36 ==> parsed(buf) == ParseView::Error("invalid "@ + "bulk string length"@ + ": "@ + why)
                &&& buf[0] == 42 ==> parsed(buf) == ParseView::Error("invalid "@ + "array count"@ + ": "@ + why)
            })
            &&& valid_utf8(line) && buf[0] == 36 ==> (number matches Ok(n) ==> {
                let end = 1 + line.len() + 2 + n;
                &&& n >= 0 && buf.len() < end + 2 ==> parsed(buf) is Incomplete
                &&& n >= 0 && buf.len() >= end + 2 && !(buf[end] == 13 && buf[end + 1] == 10) ==> parsed(buf)
                    == ParseView::Error("bulk string not terminated by CRLF"@)
                &&& n >= 0 && buf.len() >= end + 2 && buf[end] == 13 && buf[end + 1] == 10 ==> parsed(buf) is Complete
                &&& n < 0 ==> parsed(buf) == ParseView::Complete(RespView::Null, line.len() + 3int)
            })
            &&& valid_utf8(line) && (buf[0] == 43 || buf[0] == 45) ==> parsed(buf) is Complete
            &&& valid_utf8(line) && buf[0] == 58 && number is Ok ==> parsed(buf) is Complete
            &&& valid_utf8(line) && buf[0] == 42 ==> (number matches Ok(n) ==> (n < 0 ==> parsed(buf)
                == ParseView::Complete(RespView::Null, line.len() + 3int)))
        }),
{
    lemma_line_end(buf, 1);
}

/// A value whose line has not ended yet is waited for.
pub proof fn lemma_line_awaited(buf: Seq<u8>)
    requires
        buf.len() > 0,
        header(buf) is None,
        buf[0] == 43 || buf[0] == 45 || buf[0] == 58 || buf[0] == 36 || buf[0] == 42,
    ensures
        parsed(buf) is Incomplete,
{
}

/// The line behind the type byte ends at the first CRLF.
pub proof fn lemma_header(buf: Seq<u8>)
    ensures
        match header(buf) {
            Some(line) => {
                let end = 1int + line.len();
                &&& end + 1 < buf.len()
                &&& buf[end] == 13 && buf[end + 1] == 10
                &&& line == buf.subrange(1, end)
                &&& forall|i: int| 1 <= i < end ==> !(#[trigger] buf[i] == 13 && buf[i + 1] == 10)
            },
            None => forall|i: int| 1 <= i < buf.len() - 1 ==> !(#[trigger] buf[i] == 13 && buf[i + 1] == 10),
        },
{
    lemma_line_end(buf, 1);
    match line_end(buf, 1) {
        Some(end) => {
            assert forall|i: int| 1 <= i < end implies !(#[trigger] buf[i] == 13 && buf[i + 1] == 10) by {
                assert(!crlf_at(buf, i));
            }
        },
        None => {
            assert forall|i: int| 1 <= i < buf.len() - 1 implies !(#[trigger] buf[i] == 13 && buf[i + 1] == 10) by {
                assert(!crlf_at(buf, i));
            }
        },
    }
}

/// A byte that begins no value is named in the error by its two hexadecimal digits.
pub proof fn lemma_unexpected_byte(buf: Seq<u8>)
    requires
        buf.len() > 0,
        buf[0] != 43 && buf[0] != 45 && buf[0] != 58 && buf[0] != 36 && buf[0] != 42,
    ensures
        exists|a: char, b: char|
            {
                &&& #[trigger] parsed_as_unexpected(buf, a, b)
                &&& (if '0' <= a <= '9' { a as int - 48 } else { a as int - 87 }) * 16 + (if '0' <= b <= '9' {
                    b as int - 48
                } else {
                    b as int - 87
                }) == buf[0]
                &&& '0' <= a <= '9' || 'a' <= a <= 'f'
                &&& '0' <= b <= '9' || 'a' <= b <= 'f'
            },
{
    let (a, b) = (hex_digit(buf[0] as int / 16), hex_digit(buf[0] as int % 16));
    assert(parsed_as_unexpected(buf, a, b));
}

pub open spec fn parsed_as_unexpected(buf: Seq<u8>, a: char, b: char) -> bool {
    parsed(buf) == ParseView::Error("unexpected byte: 0x"@ + seq![a, b])
}

/// An array comes to what its items come to, from behind its line on.
pub proof fn lemma_array(buf: Seq<u8>, line: Seq<u8>, count: int)
    requires
        buf.len() > 0,
        buf[0] == 42,
        header(buf) == Some(line),
        valid_utf8(line),
        read_int(line, i64::MIN as int, i64::MAX as int) == Ok::<int, IntError>(count),
        count >= 0,
    ensures
        match parsed_items(buf.skip(line.len() + 3int), count as nat) {
            ItemsView::Complete(items, n) => parsed(buf) == ParseView::Complete(
                RespView::Array(items),
                line.len() + 3 + n,
            ),
            ItemsView::Incomplete => parsed(buf) is Incomplete,
            ItemsView::Error(e) => parsed(buf) == ParseView::Error(e),
        },
{
    lemma_line_end(buf, 1);
}

/// The first item that is not there in full decides: what it lacks, or what is wrong with it, is what
/// the array lacks or what is wrong with it.
pub proof fn lemma_items_decided(rest: Seq<u8>, count: nat)
    requires
        count > 0,
    ensures
        match parsed(rest) {
            ParseView::Incomplete => parsed_items(rest, count) is Incomplete,
            ParseView::Error(e) => parsed_items(rest, count) == ItemsView::Error(e),
            ParseView::Complete(first, n) => match parsed_items(rest.skip(n), (count - 1) as nat) {
                ItemsView::Complete(values, m) => parsed_items(rest, count) == ItemsView::Complete(
                    seq![first] + values,
                    n + m,
                ),
                ItemsView::Incomplete => parsed_items(rest, count) is Incomplete,
                ItemsView::Error(e) => parsed_items(rest, count) == ItemsView::Error(e),
            },
        },
{
    lemma_consumed_in_buffer(rest);
}

} // verus!
