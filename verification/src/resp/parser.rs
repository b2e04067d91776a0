//! Reading RESP values from a byte buffer.
use vstd::prelude::*;
use vstd::utf8::{decode_utf8, valid_utf8};
use super::value::{RespValue, RespView};
use crate::text::{hex_char, hex_digit, int_error_text, lemma_read_bounds, parse_i64, read_int};
use crate::utf8::{text_of, utf8_error_text};

verus! {

/// Result of attempting to parse a RESP value from a byte buffer.
#[derive(Debug)]
pub enum ParseResult {
    /// Successfully parsed a value; `usize` is the number of bytes consumed.
    Complete(RespValue, usize),
    /// Buffer does not contain a complete RESP value yet.
    Incomplete,
    /// A protocol-level error occurred.
    Error(String),
}

/// The mathematical content of a [`ParseResult`].
pub enum ParseView {
    Complete(RespView, int),
    Incomplete,
    Error(Seq<char>),
}

/// What the elements of an array parse to: the values and the bytes they take together.
pub enum ItemsView {
    Complete(Seq<RespView>, int),
    Incomplete,
    Error(Seq<char>),
}

impl View for ParseResult {
    type V = ParseView;

    open spec fn view(&self) -> ParseView {
        match self {
            ParseResult::Complete(value, consumed) => ParseView::Complete(value@, *consumed as int),
            ParseResult::Incomplete => ParseView::Incomplete,
            ParseResult::Error(e) => ParseView::Error(e@),
        }
    }
}

/// A carriage return at `i`, followed by a line feed.
pub open spec fn crlf_at(buf: Seq<u8>, i: int) -> bool {
    0 <= i && i + 1 < buf.len() && buf[i] == 13 && buf[i + 1] == 10
}

/// The position of the first CRLF of `buf` at or after `from`.
pub open spec fn line_end(buf: Seq<u8>, from: int) -> Option<int>
    decreases buf.len() - from,
{
    if from + 1 >= buf.len() {
        None
    } else if crlf_at(buf, from) {
        Some(from)
    } else {
        line_end(buf, from + 1)
    }
}

/// The line that begins behind the type byte of `buf`, without its CRLF.
pub open spec fn header(buf: Seq<u8>) -> Option<Seq<u8>> {
    match line_end(buf, 1) {
        Some(end) => Some(buf.subrange(1, end)),
        None => None,
    }
}

/// A line of text behind the type byte; `what` names it in the error.
pub open spec fn parsed_text(buf: Seq<u8>, what: Seq<char>) -> Result<Option<Seq<char>>, Seq<char>> {
    match header(buf) {
        None => Ok(None),
        Some(line) => if valid_utf8(line) {
            Ok(Some(decode_utf8(line)))
        } else {
            Err("invalid UTF-8 in "@ + what + ": "@ + utf8_error_text(line))
        },
    }
}

/// A line that writes a number behind the type byte; `what` names it in the errors.
pub open spec fn parsed_number(buf: Seq<u8>, what: Seq<char>) -> Result<Option<int>, Seq<char>> {
    match header(buf) {
        None => Ok(None),
        Some(line) => if !valid_utf8(line) {
            Err("invalid UTF-8 in "@ + what + ": "@ + utf8_error_text(line))
        } else {
            match read_int(line, i64::MIN as int, i64::MAX as int) {
                Ok(n) => Ok(Some(n)),
                Err(e) => Err("invalid "@ + what + ": "@ + int_error_text(e)),
            }
        },
    }
}

/// What a bulk string parses to, once its length `len` is read from a header that ends
/// before `start`.
pub open spec fn parsed_bulk(buf: Seq<u8>, start: int, len: int) -> ParseView {
    let end = start + len;
    if len < 0 {
        ParseView::Complete(RespView::Null, start)
    } else if buf.len() < end + 2 {
        ParseView::Incomplete
    } else if !crlf_at(buf, end) {
        ParseView::Error("bulk string not terminated by CRLF"@)
    } else {
        ParseView::Complete(RespView::BulkString(buf.subrange(start, end)), end + 2)
    }
}

/// The value at the start of `buf`.
pub open spec fn parsed(buf: Seq<u8>) -> ParseView
    decreases buf.len(), 0int,
{
    let start = match line_end(buf, 1) {
        Some(end) => end + 2,
        None => 0,
    };
    if buf.len() == 0 {
        ParseView::Incomplete
    } else if buf[0] == 43 {
        match parsed_text(buf, "simple string"@) {
            Err(e) => ParseView::Error(e),
            Ok(None) => ParseView::Incomplete,
            Ok(Some(s)) => ParseView::Complete(RespView::SimpleString(s), start),
        }
    } else if buf[0] == 45 {
        match parsed_text(buf, "error"@) {
            Err(e) => ParseView::Error(e),
            Ok(None) => ParseView::Incomplete,
            Ok(Some(s)) => ParseView::Complete(RespView::Error(s), start),
        }
    } else if buf[0] == 58 {
        match parsed_number(buf, "integer"@) {
            Err(e) => ParseView::Error(e),
            Ok(None) => ParseView::Incomplete,
            Ok(Some(n)) => ParseView::Complete(RespView::Integer(n), start),
        }
    } else if buf[0] == 36 {
        match parsed_number(buf, "bulk string length"@) {
            Err(e) => ParseView::Error(e),
            Ok(None) => ParseView::Incomplete,
            Ok(Some(len)) => parsed_bulk(buf, start, len),
        }
    } else if buf[0] == 42 {
        match parsed_number(buf, "array count"@) {
            Err(e) => ParseView::Error(e),
            Ok(None) => ParseView::Incomplete,
            Ok(Some(count)) => if count < 0 {
                ParseView::Complete(RespView::Null, start)
            } else if start <= 0 || start > buf.len() {
                ParseView::Incomplete
            } else {
                match parsed_items(buf.skip(start), count as nat) {
                    ItemsView::Complete(items, n) => ParseView::Complete(RespView::Array(items), start + n),
                    ItemsView::Incomplete => ParseView::Incomplete,
                    ItemsView::Error(e) => ParseView::Error(e),
                }
            },
        }
    } else {
        ParseView::Error("unexpected byte: 0x"@ + seq![hex_digit(buf[0] as int / 16), hex_digit(buf[0] as int % 16)])
    }
}

/// The `count` values that follow one another from the start of `rest`.
pub open spec fn parsed_items(rest: Seq<u8>, count: nat) -> ItemsView
    decreases rest.len(), 1int,
{
    if count == 0 {
        ItemsView::Complete(seq![], 0)
    } else {
        match parsed(rest) {
            ParseView::Incomplete => ItemsView::Incomplete,
            ParseView::Error(e) => ItemsView::Error(e),
            ParseView::Complete(value, n) => if n <= 0 || n > rest.len() {
                ItemsView::Incomplete
            } else {
                match parsed_items(rest.skip(n), (count - 1) as nat) {
                    ItemsView::Complete(values, m) => ItemsView::Complete(seq![value] + values, n + m),
                    other => other,
                }
            },
        }
    }
}

/// The first CRLF lies in the buffer, and none lies before it.
pub proof fn lemma_line_end(buf: Seq<u8>, from: int)
    requires
        0 <= from,
    ensures
        match line_end(buf, from) {
            Some(end) => from <= end && crlf_at(buf, end) && forall|i: int|
                from <= i < end ==> !#[trigger] crlf_at(buf, i),
            None => forall|i: int| from <= i ==> !#[trigger] crlf_at(buf, i),
        },
    decreases buf.len() - from,
{
    if from + 1 < buf.len() && !crlf_at(buf, from) {
        lemma_line_end(buf, from + 1);
    }
}

/// A position that is the first CRLF is the end of the line.
pub proof fn lemma_line_end_is(buf: Seq<u8>, from: int, end: int)
    requires
        0 <= from <= end,
        crlf_at(buf, end),
        forall|i: int| from <= i < end ==> !#[trigger] crlf_at(buf, i),
    ensures
        line_end(buf, from) == Some(end),
    decreases end - from,
{
    if from < end {
        lemma_line_end_is(buf, from + 1, end);
    }
}

/// A complete value takes at least a type byte and a line end, and no more bytes than there are.
pub proof fn lemma_consumed_in_buffer(buf: Seq<u8>)
    ensures
        parsed(buf) matches ParseView::Complete(_, n) ==> 3 <= n <= buf.len(),
    decreases buf.len(), 0int,
{
    if buf.len() > 0 {
        lemma_line_end(buf, 1);
        if let Some(end) = line_end(buf, 1) {
            if buf[0] == 42 {
                if let Ok(Some(count)) = parsed_number(buf, "array count"@) {
                    if count >= 0 {
                        lemma_items_in_buffer(buf.skip(end + 2), count as nat);
                    }
                }
            }
        }
    }
}

pub proof fn lemma_items_in_buffer(rest: Seq<u8>, count: nat)
    ensures
        parsed_items(rest, count) matches ItemsView::Complete(values, n) ==> 0 <= n <= rest.len()
            && values.len() == count,
    decreases rest.len(), 1int,
{
    if count > 0 {
        lemma_consumed_in_buffer(rest);
        if let ParseView::Complete(_, n) = parsed(rest) {
            lemma_items_in_buffer(rest.skip(n), (count - 1) as nat);
        }
    }
}

/// An array has as many elements as its header says, which is a number of 64 bits with sign.
pub proof fn lemma_array_length(buf: Seq<u8>)
    ensures
        parsed(buf) matches ParseView::Complete(RespView::Array(items), _) ==> items.len() <= i64::MAX,
{
    if buf.len() > 0 && buf[0] == 42 {
        if let Ok(Some(count)) = parsed_number(buf, "array count"@) {
            lemma_line_end(buf, 1);
            let line = header(buf)->0;
            lemma_read_bounds(line, i64::MIN as int, i64::MAX as int);
            if count >= 0 {
                lemma_items_in_buffer(buf.skip(line_end(buf, 1)->0 + 2), count as nat);
            }
        }
    }
}

/// Locate the next CRLF in `buf` starting at `offset`.
/// Returns the position of the carriage return (the line content is `buf[offset..pos]`).
pub fn find_crlf(buf: &[u8], offset: usize) -> (pos: Option<usize>)
    ensures
        match pos {
            Some(p) => line_end(buf@, offset as int) == Some(p as int) && offset <= p && p + 1 < buf.len(),
            None => line_end(buf@, offset as int) is None,
        },
{
    if buf.len() < 2 || offset > buf.len() - 2 {
        return None;
    }
    let mut i: usize = offset;
    while i < buf.len() - 1
        invariant
            offset <= i < buf@.len(),
            buf@.len() >= 2,
            line_end(buf@, offset as int) == line_end(buf@, i as int),
        decreases buf@.len() - i,
    {
        if buf[i] == 13 && buf[i + 1] == 10 {
            return Some(i);
        }
        i += 1;
    }
    None
}

/// Read a line terminated by CRLF starting at `offset`.
/// Returns the line and the position after its CRLF, or `None` if incomplete.
pub fn read_line(buf: &[u8], offset: usize) -> (line: Option<(&[u8], usize)>)
    ensures
        match line {
            Some((bytes, next)) => {
                &&& line_end(buf@, offset as int) == Some(next - 2)
                &&& bytes@ == buf@.subrange(offset as int, next - 2)
                &&& offset + 2 <= next <= buf@.len()
            },
            None => line_end(buf@, offset as int) is None,
        },
{
    match find_crlf(buf, offset) {
        Some(cr) => Some((&buf[offset..cr], cr + 2)),
        None => None,
    }
}

/// Joins the parts of an error message.
fn message(kind: &str, what: &str, detail: &str) -> (m: String)
    ensures
        m@ == kind@ + what@ + ": "@ + detail@,
{
    let mut m = kind.to_string();
    m.append(what);
    m.append(": ");
    m.append(detail);
    m
}

/// Reads the line behind the type byte as text.
fn parse_text(buf: &[u8], what: &str) -> (r: Result<Option<(String, usize)>, String>)
    ensures
        match r {
            Ok(Some((s, next))) => parsed_text(buf@, what@) == Ok::<_, Seq<char>>(Some(s@)) && line_end(
                buf@,
                1,
            ) == Some(next - 2) && next <= buf@.len(),
            Ok(None) => parsed_text(buf@, what@) == Ok::<Option<Seq<char>>, Seq<char>>(None),
            Err(e) => parsed_text(buf@, what@) == Err::<Option<Seq<char>>, Seq<char>>(e@),
        },
{
    match read_line(buf, 1) {
        Some((line, next)) => match text_of(line) {
            Ok(s) => Ok(Some((s.to_string(), next))),
            Err(e) => Err(message("invalid UTF-8 in ", what, e.as_str())),
        },
        None => Ok(None),
    }
}

/// Reads the line behind the type byte as a number.
fn parse_number(buf: &[u8], what: &str) -> (r: Result<Option<(i64, usize)>, String>)
    ensures
        match r {
            Ok(Some((n, next))) => parsed_number(buf@, what@) == Ok::<_, Seq<char>>(Some(n as int)) && line_end(
                buf@,
                1,
            ) == Some(next - 2) && 3 <= next <= buf@.len(),
            Ok(None) => parsed_number(buf@, what@) == Ok::<Option<int>, Seq<char>>(None),
            Err(e) => parsed_number(buf@, what@) == Err::<Option<int>, Seq<char>>(e@),
        },
{
    match read_line(buf, 1) {
        Some((line, next)) => match text_of(line) {
            Ok(_) => match parse_i64(line) {
                Ok(n) => Ok(Some((n, next))),
                Err(e) => Err(message("invalid ", what, e.text())),
            },
            Err(e) => Err(message("invalid UTF-8 in ", what, e.as_str())),
        },
        None => Ok(None),
    }
}

/// Parse a single RESP value from `buf`.
pub fn parse_resp(buf: &[u8]) -> (r: ParseResult)
    ensures
        r@ == parsed(buf@),
    decreases buf@.len(), 1int,
{
    if buf.len() == 0 {
        return ParseResult::Incomplete;
    }
    let first = buf[0];
    if first == 43 {
        parse_simple_string(buf)
    } else if first == 45 {
        parse_error(buf)
    } else if first == 58 {
        parse_integer(buf)
    } else if first == 36 {
        parse_bulk_string(buf)
    } else if first == 42 {
        parse_array(buf)
    } else {
        unexpected_byte(first)
    }
}

fn unexpected_byte(first: u8) -> (r: ParseResult)
    ensures
        r@ == ParseView::Error(
            "unexpected byte: 0x"@ + seq![hex_digit(first as int / 16), hex_digit(first as int % 16)],
        ),
{
    let mut text = "unexpected byte: 0x".to_string();
    text.push(hex_char(first / 16));
    text.push(hex_char(first % 16));
    assert(text@ =~= "unexpected byte: 0x"@ + seq![hex_digit(first as int / 16), hex_digit(first as int % 16)]);
    ParseResult::Error(text)
}

pub fn parse_simple_string(buf: &[u8]) -> (r: ParseResult)
    requires
        buf@.len() > 0,
        buf@[0] == 43,
    ensures
        r@ == parsed(buf@),
{
    match parse_text(buf, "simple string") {
        Ok(Some((s, next))) => ParseResult::Complete(RespValue::SimpleString(s), next),
        Ok(None) => ParseResult::Incomplete,
        Err(e) => ParseResult::Error(e),
    }
}

pub fn parse_error(buf: &[u8]) -> (r: ParseResult)
    requires
        buf@.len() > 0,
        buf@[0] == 45,
    ensures
        r@ == parsed(buf@),
{
    match parse_text(buf, "error") {
        Ok(Some((s, next))) => ParseResult::Complete(RespValue::Error(s), next),
        Ok(None) => ParseResult::Incomplete,
        Err(e) => ParseResult::Error(e),
    }
}

pub fn parse_integer(buf: &[u8]) -> (r: ParseResult)
    requires
        buf@.len() > 0,
        buf@[0] == 58,
    ensures
        r@ == parsed(buf@),
{
    match parse_number(buf, "integer") {
        Ok(Some((n, next))) => ParseResult::Complete(RespValue::Integer(n), next),
        Ok(None) => ParseResult::Incomplete,
        Err(e) => ParseResult::Error(e),
    }
}

pub fn parse_bulk_string(buf: &[u8]) -> (r: ParseResult)
    requires
        buf@.len() > 0,
        buf@[0] == 36,
    ensures
        r@ == parsed(buf@),
{
    // Read the length line: `$<len>\r\n`
    let (len, after_len) = match parse_number(buf, "bulk string length") {
        Ok(Some(v)) => v,
        Ok(None) => return ParseResult::Incomplete,
        Err(e) => return ParseResult::Error(e),
    };
    // Null bulk string
    if len < 0 {
        return ParseResult::Complete(RespValue::Null, after_len);
    }
    let available: u64 = (buf.len() - after_len) as u64;
    if available < 2 || available - 2 < len as u64 {
        return ParseResult::Incomplete;
    }
    let data_end: usize = after_len + len as usize;
    // Verify trailing CRLF
    if buf[data_end] != 13 || buf[data_end + 1] != 10 {
        return ParseResult::Error("bulk string not terminated by CRLF".to_string());
    }
    let data = vstd::slice::slice_to_vec(&buf[after_len..data_end]);
    ParseResult::Complete(RespValue::BulkString(data), data_end + 2)
}

/// What remains to be parsed of an array, put behind what is parsed already.
spec fn items_after(done: Seq<RespView>, taken: int, rest: ItemsView) -> ItemsView {
    match rest {
        ItemsView::Complete(values, n) => ItemsView::Complete(done + values, taken + n),
        other => other,
    }
}

spec fn views(items: Seq<RespValue>) -> Seq<RespView> {
    items.map_values(|v: RespValue| v@)
}

pub fn parse_array(buf: &[u8]) -> (r: ParseResult)
    requires
        buf@.len() > 0,
        buf@[0] == 42,
    ensures
        r@ == parsed(buf@),
    decreases buf@.len(), 0int,
{
    // Read the count line: `*<count>\r\n`
    let (count, after_count) = match parse_number(buf, "array count") {
        Ok(Some(v)) => v,
        Ok(None) => return ParseResult::Incomplete,
        Err(e) => return ParseResult::Error(e),
    };
    // Null array
    if count < 0 {
        return ParseResult::Complete(RespValue::Null, after_count);
    }
    let ghost all = parsed_items(buf@.skip(after_count as int), count as nat);
    let mut items: Vec<RespValue> = Vec::new();
    let mut offset: usize = after_count;
    let mut left: i64 = count;
    assert(views(items@) + Seq::<RespView>::empty() =~= Seq::<RespView>::empty());
    proof {
        if let ItemsView::Complete(values, n) = all {
            assert(views(items@) + values =~= values);
        }
    }
    while left > 0
        invariant
            0 <= left <= count,
            3 <= after_count <= offset <= buf@.len(),
            all == items_after(
                views(items@),
                offset - after_count,
                parsed_items(buf@.skip(offset as int), left as nat),
            ),
            buf@.len() > 0,
            buf@[0] == 42,
            line_end(buf@, 1) == Some(after_count - 2),
            parsed_number(buf@, "array count"@) == Ok::<_, Seq<char>>(Some(count as int)),
            all == parsed_items(buf@.skip(after_count as int), count as nat),
        decreases left,
    {
        let rest = &buf[offset..buf.len()];
        assert(rest@ =~= buf@.skip(offset as int));
        proof {
            lemma_consumed_in_buffer(rest@);
        }
        match parse_resp(rest) {
            ParseResult::Complete(value, consumed) => {
                let ghost before = views(items@);
                let ghost tail = parsed_items(rest@.skip(consumed as int), (left - 1) as nat);
                items.push(value);
                assert(views(items@) =~= before.push(value@));
                assert(rest@.skip(consumed as int) =~= buf@.skip(offset + consumed));
                proof {
                    if let ItemsView::Complete(values, n) = tail {
                        assert(before + (seq![value@] + values) =~= views(items@) + values);
                    }
                }
                offset += consumed;
                left -= 1;
            },
            ParseResult::Incomplete => return ParseResult::Incomplete,
            ParseResult::Error(e) => return ParseResult::Error(e),
        }
    }
    let result = ParseResult::Complete(RespValue::Array(items), offset);
    assert(views(items@) + Seq::<RespView>::empty() =~= views(items@));
    assert(result@->Complete_0->Array_0 =~= views(items@));
    result
}

} // verus!
