//! The commands that clients send, and what they do to the store.
use vstd::prelude::*;
use vstd::utf8::{decode_utf8, encode_utf8, valid_utf8};
use super::encoder::{
    encode_bulk_string, encode_error, encode_integer, encode_null, encode_simple_string, encoded,
};
use super::value::{RespValue, RespView};
use crate::cache::blob::{bytes_from, bytes_to_vec};
use crate::cache::map::Contents;
use crate::cache::store::{after_read, holds, read, stored, time_left, with_expiry, CacheStore};
use crate::clock::{millis, secs, MAX_NANOS, NANOS_PER_MILLI, NANOS_PER_SEC};
use crate::text::{parse_u64, read_int};
use crate::utf8::{same_text, text_of, to_upper, upper};

verus! {

/// What a command comes to: the contents of the store afterwards, and the reply.
pub struct Outcome {
    pub store: Contents,
    pub reply: RespView,
}

/// A command that is refused leaves the store as it is.
pub open spec fn refused(m: Contents, text: Seq<char>) -> Outcome {
    Outcome { store: m, reply: RespView::Error(text) }
}

/// The text that an argument holds, if it is a string of valid UTF-8.
pub open spec fn str_of(v: RespView) -> Option<Seq<char>> {
    match v {
        RespView::BulkString(d) => if valid_utf8(d) {
            Some(decode_utf8(d))
        } else {
            None
        },
        RespView::SimpleString(s) => Some(s),
        _ => None,
    }
}

/// The bytes that an argument holds, if it is a string.
pub open spec fn bytes_of(v: RespView) -> Option<Seq<u8>> {
    match v {
        RespView::BulkString(d) => Some(d),
        RespView::SimpleString(s) => Some(encode_utf8(s)),
        _ => None,
    }
}

/// The number that an argument writes, if it writes one of 64 bits.
pub open spec fn number_of(v: RespView) -> Option<int> {
    match str_of(v) {
        None => None,
        Some(s) => match read_int(encode_utf8(s), 0, u64::MAX as int) {
            Ok(n) => Some(n),
            Err(_) => None,
        },
    }
}

pub open spec fn arg_views(args: Seq<RespValue>) -> Seq<RespView> {
    args.map_values(|v: RespValue| v@)
}

pub open spec fn ping(args: Seq<RespView>) -> RespView {
    if args.len() == 1 {
        RespView::SimpleString("PONG"@)
    } else if args.len() == 2 {
        match bytes_of(args[1]) {
            Some(data) => RespView::BulkString(data),
            None => RespView::Error("ERR invalid argument"@),
        }
    } else {
        RespView::Error("ERR wrong number of arguments for 'ping' command"@)
    }
}

pub open spec fn echo(args: Seq<RespView>) -> RespView {
    if args.len() != 2 {
        RespView::Error("ERR wrong number of arguments for 'echo' command"@)
    } else {
        match bytes_of(args[1]) {
            Some(data) => RespView::BulkString(data),
            None => RespView::Error("ERR invalid argument"@),
        }
    }
}

/// The options of SET from the argument `i` on, where those before say `ttl`: the time to
/// live that they ask for, or the error.
pub open spec fn set_options(args: Seq<RespView>, i: int, ttl: Option<u128>) -> Result<Option<u128>, Seq<char>>
    decreases args.len() - i,
{
    if i >= args.len() {
        Ok(ttl)
    } else {
        match str_of(args[i]) {
            None => Err("ERR invalid option"@),
            Some(option) => if upper(option) != "EX"@ && upper(option) != "PX"@ {
                Err("ERR syntax error"@)
            } else if i + 1 >= args.len() {
                Err("ERR wrong number of arguments for 'set' command"@)
            } else {
                match number_of(args[i + 1]) {
                    None => Err("ERR value is not an integer or out of range"@),
                    Some(n) => set_options(
                        args,
                        i + 2,
                        Some(
                            (n * (if upper(option) == "EX"@ { NANOS_PER_SEC } else { NANOS_PER_MILLI })) as u128,
                        ),
                    ),
                }
            },
        }
    }
}

pub open spec fn set(args: Seq<RespView>, m: Contents, now: u128) -> Outcome {
    if args.len() < 3 {
        refused(m, "ERR wrong number of arguments for 'set' command"@)
    } else if str_of(args[1]) is None {
        refused(m, "ERR invalid key"@)
    } else if bytes_of(args[2]) is None {
        refused(m, "ERR invalid value"@)
    } else {
        match set_options(args, 3, None) {
            Err(text) => refused(m, text),
            Ok(ttl) => Outcome {
                store: stored(m, str_of(args[1])->0, bytes_of(args[2])->0, ttl, now),
                reply: RespView::SimpleString("OK"@),
            },
        }
    }
}

pub open spec fn get(args: Seq<RespView>, m: Contents, now: u128) -> Outcome {
    if args.len() != 2 {
        refused(m, "ERR wrong number of arguments for 'get' command"@)
    } else {
        match str_of(args[1]) {
            None => refused(m, "ERR invalid key"@),
            Some(key) => Outcome {
                store: after_read(m, key, now),
                reply: match read(m, key, now) {
                    Some(value) => RespView::BulkString(value),
                    None => RespView::Null,
                },
            },
        }
    }
}

/// The contents after the keys were deleted one after the other, and how many were there.
pub open spec fn deleted(m: Contents, keys: Seq<RespView>) -> (Contents, int)
    decreases keys.len(),
{
    if keys.len() == 0 {
        (m, 0)
    } else {
        let (before, n) = deleted(m, keys.drop_last());
        match str_of(keys.last()) {
            None => (before, n),
            Some(key) => (before.remove(key), if before.contains_key(key) { n + 1 } else { n }),
        }
    }
}

pub open spec fn del(args: Seq<RespView>, m: Contents) -> Outcome {
    if args.len() < 2 {
        refused(m, "ERR wrong number of arguments for 'del' command"@)
    } else {
        let (after, n) = deleted(m, args.skip(1));
        Outcome { store: after, reply: RespView::Integer(n) }
    }
}

pub open spec fn key_exists(args: Seq<RespView>, m: Contents, now: u128) -> Outcome {
    if args.len() != 2 {
        refused(m, "ERR wrong number of arguments for 'exists' command"@)
    } else {
        match str_of(args[1]) {
            None => refused(m, "ERR invalid key"@),
            Some(key) => Outcome {
                store: after_read(m, key, now),
                reply: RespView::Integer(if holds(m, key, now) { 1 } else { 0 }),
            },
        }
    }
}

/// A number of seconds as it is replied: in 64 bits with sign.
pub open spec fn reply_secs(nanos: u128) -> int {
    let n = (nanos / NANOS_PER_SEC) % 0x1_0000_0000_0000_0000;
    if n < 0x8000_0000_0000_0000 {
        n as int
    } else {
        n - 0x1_0000_0000_0000_0000
    }
}

pub open spec fn ttl(args: Seq<RespView>, m: Contents, now: u128) -> Outcome {
    if args.len() != 2 {
        refused(m, "ERR wrong number of arguments for 'ttl' command"@)
    } else {
        match str_of(args[1]) {
            None => refused(m, "ERR invalid key"@),
            Some(key) => Outcome {
                store: after_read(m, key, now),
                reply: RespView::Integer(
                    if !holds(m, key, now) {
                        -2
                    } else {
                        match time_left(m, key, now) {
                            Some(left) => reply_secs(left),
                            None => -1,
                        }
                    },
                ),
            },
        }
    }
}

pub open spec fn expire(args: Seq<RespView>, m: Contents, now: u128) -> Outcome {
    if args.len() != 3 {
        refused(m, "ERR wrong number of arguments for 'expire' command"@)
    } else if str_of(args[1]) is None {
        refused(m, "ERR invalid key"@)
    } else if number_of(args[2]) is None {
        refused(m, "ERR value is not an integer or out of range"@)
    } else {
        let key = str_of(args[1])->0;
        Outcome {
            store: with_expiry(m, key, (number_of(args[2])->0 * NANOS_PER_SEC) as u128, now),
            reply: RespView::Integer(if m.contains_key(key) { 1 } else { 0 }),
        }
    }
}

/// What the command with the given name, in upper case, comes to.
pub open spec fn dispatched(name: Seq<char>, args: Seq<RespView>, m: Contents, now: u128) -> Outcome {
    if name == "PING"@ {
        Outcome { store: m, reply: ping(args) }
    } else if name == "ECHO"@ {
        Outcome { store: m, reply: echo(args) }
    } else if name == "SET"@ {
        set(args, m, now)
    } else if name == "GET"@ {
        get(args, m, now)
    } else if name == "DEL"@ {
        del(args, m)
    } else if name == "EXISTS"@ {
        key_exists(args, m, now)
    } else if name == "TTL"@ {
        ttl(args, m, now)
    } else if name == "EXPIRE"@ {
        expire(args, m, now)
    } else {
        refused(m, "ERR unknown command"@)
    }
}

/// The name of a command, in upper case, if it has one.
pub open spec fn command_name(value: RespView) -> Option<Seq<char>> {
    match value {
        RespView::Array(args) => if args.len() == 0 {
            None
        } else {
            match str_of(args[0]) {
                Some(name) => Some(upper(name)),
                None => None,
            }
        },
        _ => None,
    }
}

/// What a command comes to.
pub open spec fn executed(value: RespView, m: Contents, now: u128) -> Outcome {
    match value {
        RespView::Array(args) => if args.len() == 0 {
            refused(m, "ERR empty command"@)
        } else {
            match str_of(args[0]) {
                None => refused(m, "ERR invalid command"@),
                Some(name) => dispatched(upper(name), args, m, now),
            }
        },
        _ => refused(m, "ERR expected array (RESP command)"@),
    }
}

/// An array whose length fits in 64 bits with sign.
pub open spec fn countable(value: RespView) -> bool {
    value matches RespView::Array(items) ==> items.len() <= i64::MAX
}

/// Extract a UTF-8 string slice from a `RespValue` (BulkString or SimpleString).
pub(crate) fn extract_str(v: &RespValue) -> (s: Option<&str>)
    ensures
        match s {
            Some(text) => str_of(v@) == Some(text@),
            None => str_of(v@) is None,
        },
{
    match v {
        RespValue::BulkString(data) => match text_of(data.as_slice()) {
            Ok(s) => Some(s),
            Err(_) => None,
        },
        RespValue::SimpleString(s) => Some(s.as_str()),
        _ => None,
    }
}

/// Extract raw bytes from a `RespValue`.
fn extract_bytes(v: &RespValue) -> (bytes: Option<&[u8]>)
    ensures
        match bytes {
            Some(b) => bytes_of(v@) == Some(b@),
            None => bytes_of(v@) is None,
        },
{
    match v {
        RespValue::BulkString(data) => Some(data.as_slice()),
        RespValue::SimpleString(s) => Some(s.as_str().as_bytes()),
        _ => None,
    }
}

/// Extract a number from a `RespValue`.
fn extract_u64(v: &RespValue) -> (n: Option<u64>)
    ensures
        match n {
            Some(n) => number_of(v@) == Some(n as int),
            None => number_of(v@) is None,
        },
{
    match extract_str(v) {
        Some(s) => match parse_u64(s.as_bytes()) {
            Ok(n) => Some(n),
            Err(_) => None,
        },
        None => None,
    }
}

pub fn cmd_ping(args: &[RespValue]) -> (out: Vec<u8>)
    ensures
        out@ == encoded(ping(arg_views(args@))),
{
    if args.len() == 1 {
        encode_simple_string("PONG")
    } else if args.len() == 2 {
        // PING <message> — echo back the message as bulk string
        match extract_bytes(&args[1]) {
            Some(data) => encode_bulk_string(data),
            None => encode_error("ERR invalid argument"),
        }
    } else {
        encode_error("ERR wrong number of arguments for 'ping' command")
    }
}

pub fn cmd_echo(args: &[RespValue]) -> (out: Vec<u8>)
    ensures
        out@ == encoded(echo(arg_views(args@))),
{
    if args.len() != 2 {
        return encode_error("ERR wrong number of arguments for 'echo' command");
    }
    match extract_bytes(&args[1]) {
        Some(data) => encode_bulk_string(data),
        None => encode_error("ERR invalid argument"),
    }
}

pub fn cmd_set(args: &[RespValue], store: &mut CacheStore, now: u128) -> (out: Vec<u8>)
    requires
        now <= MAX_NANOS,
    ensures
        ({
            let outcome = set(arg_views(args@), old(store)@, now);
            out@ == encoded(outcome.reply) && final(store)@ == outcome.store
        }),
{
    // SET key value [EX seconds | PX milliseconds]
    if args.len() < 3 {
        return encode_error("ERR wrong number of arguments for 'set' command");
    }
    let ghost views = arg_views(args@);
    let key = match extract_str(&args[1]) {
        Some(s) => s.to_string(),
        None => return encode_error("ERR invalid key"),
    };
    let value = match extract_bytes(&args[2]) {
        Some(data) => bytes_from(vstd::slice::slice_to_vec(data)),
        None => return encode_error("ERR invalid value"),
    };
    // Parse optional EX/PX
    let mut ttl: Option<u128> = None;
    let mut i: usize = 3;
    while i < args.len()
        invariant
            3 <= i <= args@.len(),
            views == arg_views(args@),
            ttl matches Some(d) ==> d <= MAX_NANOS,
            set_options(views, 3, None) == set_options(views, i as int, ttl),
            str_of(views[1]) is Some,
            bytes_of(views[2]) is Some,
            store@ == old(store)@,
        decreases args@.len() - i,
    {
        let option = match extract_str(&args[i]) {
            Some(s) => to_upper(s),
            None => return encode_error("ERR invalid option"),
        };
        let is_ex = same_text(option.as_str(), "EX");
        if !is_ex && !same_text(option.as_str(), "PX") {
            return encode_error("ERR syntax error");
        }
        if i + 1 >= args.len() {
            return encode_error("ERR wrong number of arguments for 'set' command");
        }
        let n: u64 = match extract_u64(&args[i + 1]) {
            Some(n) => n,
            None => return encode_error("ERR value is not an integer or out of range"),
        };
        ttl = Some(if is_ex { secs(n) } else { millis(n) });
        i += 2;
    }
    store.set_at(key, value, ttl, now);
    encode_simple_string("OK")
}

pub fn cmd_get(args: &[RespValue], store: &mut CacheStore, now: u128) -> (out: Vec<u8>)
    ensures
        ({
            let outcome = get(arg_views(args@), old(store)@, now);
            out@ == encoded(outcome.reply) && final(store)@ == outcome.store
        }),
{
    if args.len() != 2 {
        return encode_error("ERR wrong number of arguments for 'get' command");
    }
    let key = match extract_str(&args[1]) {
        Some(s) => s,
        None => return encode_error("ERR invalid key"),
    };
    match store.get_at(key, now) {
        Some(value) => encode_bulk_string(bytes_to_vec(&value).as_slice()),
        None => encode_null(),
    }
}

pub fn cmd_del(args: &[RespValue], store: &mut CacheStore) -> (out: Vec<u8>)
    requires
        args@.len() <= i64::MAX,
    ensures
        ({
            let outcome = del(arg_views(args@), old(store)@);
            out@ == encoded(outcome.reply) && final(store)@ == outcome.store
        }),
{
    if args.len() < 2 {
        return encode_error("ERR wrong number of arguments for 'del' command");
    }
    let ghost keys = arg_views(args@).skip(1);
    let mut n: i64 = 0;
    let mut i: usize = 1;
    assert(keys.take(0) =~= Seq::<RespView>::empty());
    while i < args.len()
        invariant
            1 <= i <= args@.len() <= i64::MAX,
            keys == arg_views(args@).skip(1),
            0 <= n < i,
            deleted(old(store)@, keys.take(i - 1)) == (store@, n as int),
        decreases args@.len() - i,
    {
        assert(keys.take(i as int).drop_last() =~= keys.take(i - 1));
        assert(keys.take(i as int).last() == args@[i as int]@);
        if let Some(key) = extract_str(&args[i]) {
            if store.delete(key) {
                n += 1;
            }
        }
        i += 1;
    }
    assert(keys.take(i - 1) =~= keys);
    encode_integer(n)
}

pub fn cmd_exists(args: &[RespValue], store: &mut CacheStore, now: u128) -> (out: Vec<u8>)
    ensures
        ({
            let outcome = key_exists(arg_views(args@), old(store)@, now);
            out@ == encoded(outcome.reply) && final(store)@ == outcome.store
        }),
{
    if args.len() != 2 {
        return encode_error("ERR wrong number of arguments for 'exists' command");
    }
    let key = match extract_str(&args[1]) {
        Some(s) => s,
        None => return encode_error("ERR invalid key"),
    };
    encode_integer(
        if store.key_exists_at(key, now) {
            1
        } else {
            0
        },
    )
}

fn secs_reply(nanos: u128) -> (n: i64)
    ensures
        n == reply_secs(nanos),
{
    let n: u128 = (nanos / NANOS_PER_SEC) % 0x1_0000_0000_0000_0000;
    if n < 0x8000_0000_0000_0000 {
        n as i64
    } else {
        (n as i128 - 0x1_0000_0000_0000_0000) as i64
    }
}

pub fn cmd_ttl(args: &[RespValue], store: &mut CacheStore, now: u128) -> (out: Vec<u8>)
    ensures
        ({
            let outcome = ttl(arg_views(args@), old(store)@, now);
            out@ == encoded(outcome.reply) && final(store)@ == outcome.store
        }),
{
    if args.len() != 2 {
        return encode_error("ERR wrong number of arguments for 'ttl' command");
    }
    let key = match extract_str(&args[1]) {
        Some(s) => s,
        None => return encode_error("ERR invalid key"),
    };
    if !store.key_exists_at(key, now) {
        // Key doesn't exist
        return encode_integer(-2);
    }
    match store.ttl_at(key, now) {
        Some(left) => encode_integer(secs_reply(left)),
        None => encode_integer(-1),  // exists but no TTL
    }
}

pub fn cmd_expire(args: &[RespValue], store: &mut CacheStore, now: u128) -> (out: Vec<u8>)
    requires
        now <= MAX_NANOS,
    ensures
        ({
            let outcome = expire(arg_views(args@), old(store)@, now);
            out@ == encoded(outcome.reply) && final(store)@ == outcome.store
        }),
{
    if args.len() != 3 {
        return encode_error("ERR wrong number of arguments for 'expire' command");
    }
    let key = match extract_str(&args[1]) {
        Some(s) => s,
        None => return encode_error("ERR invalid key"),
    };
    let n: u64 = match extract_u64(&args[2]) {
        Some(n) => n,
        None => return encode_error("ERR value is not an integer or out of range"),
    };
    let ok = store.expire_at(key, secs(n), now);
    encode_integer(
        if ok {
            1
        } else {
            0
        },
    )
}

/// Runs the command with the given name, which is in upper case.
pub fn dispatch(cmd: &str, args: &[RespValue], store: &mut CacheStore, now: u128) -> (out: Vec<u8>)
    requires
        args@.len() <= i64::MAX,
        now <= MAX_NANOS,
    ensures
        ({
            let outcome = dispatched(cmd@, arg_views(args@), old(store)@, now);
            out@ == encoded(outcome.reply) && final(store)@ == outcome.store
        }),
{
    if same_text(cmd, "PING") {
        cmd_ping(args)
    } else if same_text(cmd, "ECHO") {
        cmd_echo(args)
    } else if same_text(cmd, "SET") {
        cmd_set(args, store, now)
    } else if same_text(cmd, "GET") {
        cmd_get(args, store, now)
    } else if same_text(cmd, "DEL") {
        cmd_del(args, store)
    } else if same_text(cmd, "EXISTS") {
        cmd_exists(args, store, now)
    } else if same_text(cmd, "TTL") {
        cmd_ttl(args, store, now)
    } else if same_text(cmd, "EXPIRE") {
        cmd_expire(args, store, now)
    } else {
        encode_error("ERR unknown command")
    }
}

/// Runs a command, at a given time, and gives the bytes of the reply.
pub fn handle_command_at(value: &RespValue, store: &mut CacheStore, now: u128) -> (out: Vec<u8>)
    requires
        countable(value@),
        now <= MAX_NANOS,
    ensures
        ({
            let outcome = executed(value@, old(store)@, now);
            out@ == encoded(outcome.reply) && final(store)@ == outcome.store
        }),
{
    let args = match value {
        RespValue::Array(items) => items,
        _ => return encode_error("ERR expected array (RESP command)"),
    };
    assert(value@->Array_0 =~= arg_views(args@));
    if args.len() == 0 {
        return encode_error("ERR empty command");
    }
    // Extract command name (first element, case-insensitive)
    let cmd = match extract_str(&args[0]) {
        Some(s) => to_upper(s),
        None => return encode_error("ERR invalid command"),
    };
    dispatch(cmd.as_str(), args.as_slice(), store, now)
}

/// Runs a command and gives the bytes of the reply.
pub fn handle_command(value: &RespValue, store: &mut CacheStore) -> (out: Vec<u8>)
    requires
        countable(value@),
    ensures
        exists|now: u128|
            {
                let outcome = #[trigger] executed(value@, old(store)@, now);
                now <= MAX_NANOS && old(store).spec_clock().shows(now) && out@ == encoded(outcome.reply) && final(store)@
                    == outcome.store
            },
{
    let now = store.now();
    handle_command_at(value, store, now)
}

} // verus!
