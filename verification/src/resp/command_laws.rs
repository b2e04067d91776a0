//! What clients can rely on over several commands.
use vstd::prelude::*;
use vstd::utf8::{encode_utf8, encode_utf8_decode_utf8, encode_utf8_valid_utf8, is_ascii_chars, valid_utf8};
use super::commands::{
    bytes_of, command_name, del, deleted, dispatched, echo, executed, expire, get, key_exists, number_of, ping, reply_secs,
    set_options, str_of, ttl, Outcome,
};
use super::value::RespView;
use crate::cache::map::Contents;
use crate::clock::{MAX_NANOS, NANOS_PER_MILLI, NANOS_PER_SEC};
use crate::text::{decimal, digits, is_digit, lemma_digits_are_digits, lemma_read_bounds, lemma_read_decimal};
use crate::utf8::{ascii_upper, lemma_ascii_text, upper};

verus! {

/// A text as an argument of a command.
pub open spec fn arg(s: Seq<char>) -> RespView {
    RespView::BulkString(encode_utf8(s))
}

/// A command that sets a key.
pub open spec fn set_command(key: Seq<char>, value: Seq<u8>) -> RespView {
    RespView::Array(seq![arg("SET"@), arg(key), RespView::BulkString(value)])
}

/// A command that sets a key for so many seconds.
pub open spec fn set_ex_command(key: Seq<char>, value: Seq<u8>, seconds: u64) -> RespView {
    RespView::Array(
        seq![
            arg("SET"@),
            arg(key),
            RespView::BulkString(value),
            arg("EX"@),
            RespView::BulkString(decimal(seconds as int)),
        ],
    )
}

/// A command with a name and a key.
pub open spec fn key_command(name: Seq<char>, key: Seq<char>) -> RespView {
    RespView::Array(seq![arg(name), arg(key)])
}

proof fn lemma_arg(s: Seq<char>)
    ensures
        str_of(arg(s)) == Some(s),
{
    encode_utf8_valid_utf8(s);
    encode_utf8_decode_utf8(s);
}

proof fn lemma_names()
    ensures
        upper("SET"@) == "SET"@,
        upper("GET"@) == "GET"@,
        upper("DEL"@) == "DEL"@,
        upper("TTL"@) == "TTL"@,
        upper("EX"@) == "EX"@,
        "GET"@ != "SET"@,
        "DEL"@ != "SET"@,
        "DEL"@ != "GET"@,
        "TTL"@ != "SET"@,
        "TTL"@ != "GET"@,
        "TTL"@ != "DEL"@,
        forall|s: Seq<char>| #![trigger s.len()] s == "PING"@ || s == "ECHO"@ ==> s.len() == 4,
        "SET"@.len() == 3,
        "GET"@.len() == 3,
        "DEL"@.len() == 3,
        "TTL"@.len() == 3,
        "EXISTS"@.len() == 6,
{
    reveal_strlit("SET");
    reveal_strlit("GET");
    reveal_strlit("DEL");
    reveal_strlit("TTL");
    reveal_strlit("EX");
    reveal_strlit("PING");
    reveal_strlit("ECHO");
    reveal_strlit("EXISTS");
    assert(ascii_upper("SET"@) =~= "SET"@);
    assert(ascii_upper("GET"@) =~= "GET"@);
    assert(ascii_upper("DEL"@) =~= "DEL"@);
    assert(ascii_upper("TTL"@) =~= "TTL"@);
    assert(ascii_upper("EX"@) =~= "EX"@);
    assert("SET"@[0] == 'S' && "GET"@[0] == 'G' && "DEL"@[0] == 'D' && "TTL"@[0] == 'T');
}

/// GET replies what SET stored.
pub proof fn lemma_set_get(m: Contents, key: Seq<char>, value: Seq<u8>, set_at: u128, now: u128)
    ensures
        ({
            let first = executed(set_command(key, value), m, set_at);
            let second = executed(key_command("GET"@, key), first.store, now);
            &&& first.reply == RespView::SimpleString("OK"@)
            &&& second.reply == RespView::BulkString(value)
            &&& second.store == first.store
        }),
{
    lemma_names();
    lemma_arg("SET"@);
    lemma_arg("GET"@);
    lemma_arg(key);
    assert("SET"@.len() == 3 && "GET"@.len() == 3);
    assert(set_command(key, value)->Array_0.len() == 3);
    assert(key_command("GET"@, key)->Array_0.len() == 2);
}

/// After DEL, GET replies null, and DEL says whether there was anything to delete.
pub proof fn lemma_del_get(m: Contents, key: Seq<char>, now: u128)
    ensures
        ({
            let first = executed(key_command("DEL"@, key), m, now);
            let second = executed(key_command("GET"@, key), first.store, now);
            &&& first.reply == RespView::Integer(if m.contains_key(key) { 1 } else { 0 })
            &&& second.reply == RespView::Null
        }),
{
    lemma_names();
    lemma_arg("DEL"@);
    lemma_arg("GET"@);
    lemma_arg(key);
    let args = key_command("DEL"@, key)->Array_0;
    assert("DEL"@.len() == 3 && "GET"@.len() == 3);
    assert(args.len() == 2);
    assert(key_command("GET"@, key)->Array_0.len() == 2);
    reveal_with_fuel(deleted, 2);
    assert(args.skip(1).len() == 1);
    assert(args.skip(1).last() == arg(key));
}

/// TTL replies the whole seconds that are left of those that SET was given; once they are over
/// the key is gone.
pub proof fn lemma_set_ttl(m: Contents, key: Seq<char>, value: Seq<u8>, seconds: u64, set_at: u128, now: u128)
    requires
        set_at <= MAX_NANOS,
        set_at <= now,
    ensures
        ({
            let first = executed(set_ex_command(key, value, seconds), m, set_at);
            let second = executed(key_command("TTL"@, key), first.store, now);
            let end = set_at + seconds * NANOS_PER_SEC;
            &&& first.reply == RespView::SimpleString("OK"@)
            &&& second.reply == RespView::Integer(if now < end { reply_secs((end - now) as u128) } else { -2 })
        }),
{
    lemma_names();
    lemma_arg("SET"@);
    lemma_arg("TTL"@);
    lemma_arg("EX"@);
    lemma_arg(key);
    let n = RespView::BulkString(decimal(seconds as int));
    assert(number_of(n) == Some(seconds as int)) by {
        let m = seconds as nat;
        lemma_digits_are_digits(m);
        assert forall|i: int| 0 <= i < decimal(m as int).len() implies #[trigger] decimal(m as int)[i] < 128 by {
            assert(is_digit(digits(m)[i]));
        }
        lemma_ascii_text(decimal(m as int));
        lemma_read_decimal(m as int, 0, u64::MAX as int);
    }
    let args = set_ex_command(key, value, seconds)->Array_0;
    assert("SET"@.len() == 3 && "TTL"@.len() == 3);
    assert(args.len() == 5);
    assert(args[3] == arg("EX"@));
    assert(args[4] == n);
    reveal_with_fuel(set_options, 2);
    assert(0 <= seconds * NANOS_PER_SEC <= MAX_NANOS) by (nonlinear_arith)
        requires
            0 <= seconds <= u64::MAX,
            NANOS_PER_SEC == 1_000_000_000,
            MAX_NANOS == 18_446_744_073_709_551_615_999_999_999,
    ;
    assert(set_options(args, 3, None) == Ok::<Option<u128>, Seq<char>>(Some((seconds * NANOS_PER_SEC) as u128)));
    assert(key_command("TTL"@, key)->Array_0.len() == 2);
}

/// The case of the letters a to z in the name of a command does not matter.
pub proof fn lemma_case_insensitive(args: Seq<RespView>, other: Seq<char>, m: Contents, now: u128)
    requires
        args.len() > 0,
        str_of(args[0]) is Some,
        is_ascii_chars(str_of(args[0])->0),
        is_ascii_chars(other),
        ascii_upper(str_of(args[0])->0) == ascii_upper(other),
    ensures
        ({
            let a = executed(RespView::Array(args), m, now);
            let b = executed(RespView::Array(args.update(0, arg(other))), m, now);
            &&& a.store == b.store
            &&& a.reply == b.reply
        }),
{
    lemma_arg(other);
    let renamed = args.update(0, arg(other));
    assert(args.len() == renamed.len());
    assert(forall|i: int| 1 <= i < args.len() ==> args[i] == renamed[i]);
    assert(args.skip(1) =~= renamed.skip(1));
    lemma_options_from(args, renamed, 3, None);
}

proof fn lemma_options_from(a: Seq<RespView>, b: Seq<RespView>, i: int, ttl: Option<u128>)
    requires
        a.len() == b.len(),
        1 <= i,
        forall|k: int| 1 <= k < a.len() ==> a[k] == b[k],
    ensures
        set_options(a, i, ttl) == set_options(b, i, ttl),
    decreases a.len() - i,
{
    if i + 1 < a.len() {
        if let Some(n) = number_of(a[i + 1]) {
            if let Some(option) = str_of(a[i]) {
                let unit = if upper(option) == "EX"@ { NANOS_PER_SEC } else { NANOS_PER_MILLI };
                lemma_options_from(a, b, i + 2, Some((n * unit) as u128));
            }
        }
    }
}

/// The eight names are told apart.
proof fn lemma_dispatch(args: Seq<RespView>, m: Contents, now: u128)
    ensures
        dispatched("PING"@, args, m, now) == (Outcome { store: m, reply: ping(args) }),
        dispatched("ECHO"@, args, m, now) == (Outcome { store: m, reply: echo(args) }),
        dispatched("SET"@, args, m, now) == super::commands::set(args, m, now),
        dispatched("GET"@, args, m, now) == get(args, m, now),
        dispatched("DEL"@, args, m, now) == del(args, m),
        dispatched("EXISTS"@, args, m, now) == key_exists(args, m, now),
        dispatched("TTL"@, args, m, now) == ttl(args, m, now),
        dispatched("EXPIRE"@, args, m, now) == expire(args, m, now),
{
    reveal_strlit("PING");
    reveal_strlit("ECHO");
    reveal_strlit("SET");
    reveal_strlit("GET");
    reveal_strlit("DEL");
    reveal_strlit("EXISTS");
    reveal_strlit("TTL");
    reveal_strlit("EXPIRE");
    assert("PING"@[0] == 'P' && "ECHO"@[0] == 'E' && "SET"@[0] == 'S' && "GET"@[0] == 'G' && "DEL"@[0] == 'D' && "TTL"@[0]
        == 'T');
    assert("EXISTS"@[2] == 'I' && "EXPIRE"@[2] == 'P' && "ECHO"@.len() == 4 && "EXISTS"@.len() == 6 && "EXPIRE"@.len()
        == 6);
}

/// What arguments hold: a simple string its text, a bulk string its bytes, and a text only if they
/// are one. Others hold neither. A number is what the decimal text of one writes.
pub proof fn lemma_arguments(text: Seq<char>, data: Seq<u8>, n: u64, other: RespView)
    requires
        other is Error || other is Integer || other is Null || other is Array,
    ensures
        str_of(RespView::SimpleString(text)) == Some(text),
        str_of(RespView::BulkString(encode_utf8(text))) == Some(text),
        !valid_utf8(data) ==> str_of(RespView::BulkString(data)) is None,
        str_of(other) is None,
        bytes_of(RespView::BulkString(data)) == Some(data),
        bytes_of(RespView::SimpleString(text)) == Some(encode_utf8(text)),
        bytes_of(other) is None,
        number_of(RespView::BulkString(decimal(n as int))) == Some(n as int),
        number_of(other) is None,
{
    lemma_arg(text);
    lemma_number_arg(n);
}

proof fn lemma_number_arg(n: u64)
    ensures
        number_of(RespView::BulkString(decimal(n as int))) == Some(n as int),
{
    let m = n as nat;
    lemma_digits_are_digits(m);
    assert forall|i: int| 0 <= i < decimal(m as int).len() implies #[trigger] decimal(m as int)[i] < 128 by {
        assert(is_digit(digits(m)[i]));
    }
    lemma_ascii_text(decimal(m as int));
    lemma_read_decimal(m as int, 0, u64::MAX as int);
}

/// A number among the arguments is one of 64 bits.
pub proof fn lemma_number_bounds(v: RespView)
    ensures
        number_of(v) matches Some(n) ==> 0 <= n <= u64::MAX,
{
    if let Some(s) = str_of(v) {
        lemma_read_bounds(encode_utf8(s), 0, u64::MAX as int);
    }
}

/// A command that is answered with an error has changed nothing.
pub proof fn lemma_errors_change_nothing(value: RespView, m: Contents, now: u128)
    ensures
        executed(value, m, now).reply is Error ==> executed(value, m, now).store == m,
{
}

/// What is no command, or none that is known, is answered with an error.
pub proof fn lemma_unknown(value: RespView, m: Contents, now: u128)
    requires
        match command_name(value) {
            None => true,
            Some(name) => name != "PING"@ && name != "ECHO"@ && name != "SET"@ && name != "GET"@ && name != "DEL"@ && name
                != "EXISTS"@ && name != "TTL"@ && name != "EXPIRE"@,
        },
    ensures
        executed(value, m, now).reply is Error,
        executed(value, m, now).store == m,
{
}

/// The name of a command is its first argument, and counts in upper case.
pub proof fn lemma_command_name(args: Seq<RespView>, name: Seq<char>)
    requires
        args.len() > 0,
        str_of(args[0]) == Some(name),
    ensures
        command_name(RespView::Array(args)) == Some(upper(name)),
        is_ascii_chars(name) ==> upper(name).len() == name.len() && forall|i: int|
            0 <= i < name.len() ==> #[trigger] upper(name)[i] == (if 97 <= name[i] as u32 <= 122 {
                ((name[i] as u32) - 32) as char
            } else {
                name[i]
            }),
{
}

/// PING replies PONG, or the message that it is given; ECHO replies the message.
pub proof fn lemma_ping_echo(args: Seq<RespView>, m: Contents, now: u128)
    ensures
        command_name(RespView::Array(args)) == Some("PING"@) && args.len() == 1 ==> executed(
            RespView::Array(args),
            m,
            now,
        ) == (Outcome { store: m, reply: RespView::SimpleString("PONG"@) }),
        (command_name(RespView::Array(args)) == Some("PING"@) || command_name(RespView::Array(args)) == Some("ECHO"@))
            && args.len() == 2 && bytes_of(args[1]) is Some ==> executed(RespView::Array(args), m, now) == (Outcome {
            store: m,
            reply: RespView::BulkString(bytes_of(args[1])->0),
        }),
{
    lemma_dispatch(args, m, now);
}

/// GET replies the value of a key that has not expired, and null for every other; EXISTS replies 1
/// and 0. A key that has expired is dropped, and nothing else changes.
pub proof fn lemma_get_and_exists(args: Seq<RespView>, m: Contents, now: u128, key: Seq<char>)
    requires
        args.len() == 2,
        str_of(args[1]) == Some(key),
    ensures
        ({
            let there = m.contains_key(key) && (m[key].1 matches Some(t) ==> now < t);
            let got = executed(RespView::Array(args), m, now);
            let name = command_name(RespView::Array(args));
            &&& name == Some("GET"@) || name == Some("EXISTS"@) ==> got.store == (if there {
                m
            } else {
                m.remove(key)
            })
            &&& name == Some("GET"@) ==> got.reply == (if there {
                RespView::BulkString(m[key].0)
            } else {
                RespView::Null
            })
            &&& name == Some("EXISTS"@) ==> got.reply == RespView::Integer(if there { 1 } else { 0 })
        }),
{
    lemma_dispatch(args, m, now);
}

/// TTL replies the whole seconds that are left to a key: -2 if there is no such key or it has
/// expired, -1 if it does not expire.
pub proof fn lemma_ttl(args: Seq<RespView>, m: Contents, now: u128, key: Seq<char>)
    requires
        args.len() == 2,
        str_of(args[1]) == Some(key),
        command_name(RespView::Array(args)) == Some("TTL"@),
    ensures
        ({
            let got = executed(RespView::Array(args), m, now);
            &&& got.reply is Integer
            &&& !m.contains_key(key) ==> got.reply->Integer_0 == -2
            &&& m.contains_key(key) ==> match m[key].1 {
                None => got.reply->Integer_0 == -1 && got.store == m,
                Some(t) => {
                    let left = t - now;
                    let n = got.reply->Integer_0;
                    &&& left <= 0 ==> n == -2 && got.store == m.remove(key)
                    &&& left > 0 ==> got.store == m
                    &&& 0 < left < 9_223_372_036_854_775_808 * 1_000_000_000 ==> n * 1_000_000_000 <= left < (n + 1)
                        * 1_000_000_000
                },
            }
        }),
{
    lemma_dispatch(args, m, now);
}

/// SET stores the value under the key: for good, or with EX for so many seconds and with PX for so
/// many milliseconds. Other keys stay as they are.
pub proof fn lemma_set(args: Seq<RespView>, m: Contents, now: u128, key: Seq<char>, value: Seq<u8>)
    requires
        args.len() >= 3,
        command_name(RespView::Array(args)) == Some("SET"@),
        str_of(args[1]) == Some(key),
        bytes_of(args[2]) == Some(value),
        now <= MAX_NANOS,
    ensures
        ({
            let got = executed(RespView::Array(args), m, now);
            let option = upper(str_of(args[3])->0);
            let n = number_of(args[4])->0;
            let timed = args.len() == 5 && str_of(args[3]) is Some && number_of(args[4]) is Some;
            &&& args.len() == 3 ==> got == (Outcome {
                store: m.insert(key, (value, None)),
                reply: RespView::SimpleString("OK"@),
            })
            &&& timed && option == "EX"@ ==> got == (Outcome {
                store: m.insert(key, (value, Some((now + n * 1_000_000_000) as u128))),
                reply: RespView::SimpleString("OK"@),
            })
            &&& timed && option == "PX"@ ==> got == (Outcome {
                store: m.insert(key, (value, Some((now + n * 1_000_000) as u128))),
                reply: RespView::SimpleString("OK"@),
            })
            &&& got.reply is Error || (got.store.contains_key(key) && got.store[key].0 == value && got.store.remove(key)
                == m.remove(key))
        }),
{
    lemma_dispatch(args, m, now);
    reveal_with_fuel(set_options, 2);
    reveal_strlit("EX");
    reveal_strlit("PX");
    assert("EX"@[0] != "PX"@[0]);
    let got = executed(RespView::Array(args), m, now);
    if args.len() == 5 {
        lemma_number_bounds(args[4]);
        if let Some(n) = number_of(args[4]) {
            assert(0 <= n * 1_000_000_000 <= MAX_NANOS && 0 <= n * 1_000_000 <= MAX_NANOS) by (nonlinear_arith)
                requires
                    0 <= n <= u64::MAX,
                    MAX_NANOS == 18_446_744_073_709_551_615_999_999_999,
            ;
        }
    }
    if !(got.reply is Error) {
        assert(got.store.remove(key) =~= m.remove(key));
    }
}

/// Of several options of SET the last counts: one more, in good order, behind options that are in
/// good order alone decides.
pub proof fn lemma_last_option_counts(args: Seq<RespView>, option: RespView, number: RespView, i: int, ttl: Option<u128>)
    requires
        0 <= i <= args.len(),
        set_options(args, i, ttl) is Ok,
        str_of(option) is Some,
        number_of(number) is Some,
    ensures
        upper(str_of(option)->0) == "EX"@ ==> set_options(args + seq![option, number], i, ttl) == Ok::<
            Option<u128>,
            Seq<char>,
        >(Some((number_of(number)->0 * 1_000_000_000) as u128)),
        upper(str_of(option)->0) == "PX"@ ==> set_options(args + seq![option, number], i, ttl) == Ok::<
            Option<u128>,
            Seq<char>,
        >(Some((number_of(number)->0 * 1_000_000) as u128)),
    decreases args.len() - i,
{
    let more = args + seq![option, number];
    reveal_strlit("EX");
    reveal_strlit("PX");
    assert("EX"@[0] != "PX"@[0]);
    if i >= args.len() {
        assert(more[i] == option && more[i + 1] == number);
        reveal_with_fuel(set_options, 2);
    } else {
        assert(more[i] == args[i]);
        assert(i + 1 < args.len());
        assert(more[i + 1] == args[i + 1]);
        let unit = if upper(str_of(args[i])->0) == "EX"@ { NANOS_PER_SEC } else { NANOS_PER_MILLI };
        lemma_last_option_counts(args, option, number, i + 2, Some((number_of(args[i + 1])->0 * unit) as u128));
    }
}

/// SET with a number of seconds followed at once by TTL replies that number.
pub proof fn lemma_set_ex_ttl_at_once(m: Contents, key: Seq<char>, value: Seq<u8>, seconds: u64, now: u128)
    requires
        now <= MAX_NANOS,
        0 < seconds < 0x8000_0000_0000_0000,
    ensures
        ({
            let first = executed(
                RespView::Array(
                    seq![
                        RespView::BulkString(encode_utf8("SET"@)),
                        RespView::BulkString(encode_utf8(key)),
                        RespView::BulkString(value),
                        RespView::BulkString(encode_utf8("EX"@)),
                        RespView::BulkString(decimal(seconds as int)),
                    ],
                ),
                m,
                now,
            );
            let second = executed(
                RespView::Array(
                    seq![RespView::BulkString(encode_utf8("TTL"@)), RespView::BulkString(encode_utf8(key))],
                ),
                first.store,
                now,
            );
            second.reply == RespView::Integer(seconds as int)
        }),
{
    lemma_set_ttl(m, key, value, seconds, now, now);
    assert(set_ex_command(key, value, seconds)->Array_0 =~= seq![
        RespView::BulkString(encode_utf8("SET"@)),
        RespView::BulkString(encode_utf8(key)),
        RespView::BulkString(value),
        RespView::BulkString(encode_utf8("EX"@)),
        RespView::BulkString(decimal(seconds as int)),
    ]);
    assert(key_command("TTL"@, key)->Array_0 =~= seq![
        RespView::BulkString(encode_utf8("TTL"@)),
        RespView::BulkString(encode_utf8(key)),
    ]);
    let left = seconds * NANOS_PER_SEC;
    assert(left / (NANOS_PER_SEC as int) == seconds && 0 < left <= MAX_NANOS) by (nonlinear_arith)
        requires
            left == seconds * NANOS_PER_SEC,
            0 < seconds <= u64::MAX,
            NANOS_PER_SEC == 1_000_000_000,
            MAX_NANOS == 18_446_744_073_709_551_615_999_999_999,
    ;
}

/// EXPIRE gives a key that is there so many seconds from now, and leaves its value; it replies
/// whether the key is there. Other keys stay as they are.
pub proof fn lemma_expire(args: Seq<RespView>, m: Contents, now: u128, key: Seq<char>, n: int)
    requires
        args.len() == 3,
        command_name(RespView::Array(args)) == Some("EXPIRE"@),
        str_of(args[1]) == Some(key),
        number_of(args[2]) == Some(n),
        now <= MAX_NANOS,
    ensures
        executed(RespView::Array(args), m, now).reply == RespView::Integer(if m.contains_key(key) { 1 } else { 0 }),
        executed(RespView::Array(args), m, now).store == (if m.contains_key(key) {
            m.insert(key, (m[key].0, Some((now + n * 1_000_000_000) as u128)))
        } else {
            m
        }),
{
    lemma_dispatch(args, m, now);
    lemma_number_bounds(args[2]);
    assert(0 <= n * 1_000_000_000 <= MAX_NANOS) by (nonlinear_arith)
        requires
            0 <= n <= u64::MAX,
            MAX_NANOS == 18_446_744_073_709_551_615_999_999_999,
    ;
}

proof fn lemma_deleted(m: Contents, keys: Seq<RespView>)
    ensures
        ({
            let (after, n) = deleted(m, keys);
            let gone = Set::new(
                |key: Seq<char>|
                    m.contains_key(key) && exists|i: int|
                        0 <= i < keys.len() && #[trigger] str_of(keys[i]) == Some(key),
            );
            &&& gone.finite()
            &&& n == gone.len()
            &&& after == m.remove_keys(gone)
        }),
    decreases keys.len(),
{
    let (after, n) = deleted(m, keys);
    let gone = Set::new(
        |key: Seq<char>|
            m.contains_key(key) && exists|i: int| 0 <= i < keys.len() && #[trigger] str_of(keys[i]) == Some(key),
    );
    if keys.len() == 0 {
        assert(gone =~= Set::empty());
        assert(after =~= m.remove_keys(gone));
    } else {
        let front = keys.drop_last();
        lemma_deleted(m, front);
        let before = Set::new(
            |key: Seq<char>|
                m.contains_key(key) && exists|i: int| 0 <= i < front.len() && #[trigger] str_of(front[i]) == Some(key),
        );
        let last = keys.len() - 1;
        assert(forall|i: int| 0 <= i < front.len() ==> str_of(front[i]) == #[trigger] str_of(keys[i]));
        assert forall|key: Seq<char>| gone.contains(key) <==> before.contains(key) || (m.contains_key(key) && str_of(
            keys[last],
        ) == Some(key)) by {
            if before.contains(key) {
                let i = choose|i: int| 0 <= i < front.len() && #[trigger] str_of(front[i]) == Some(key);
                assert(str_of(keys[i]) == Some(key));
            }
            if gone.contains(key) && str_of(keys[last]) != Some(key) {
                let i = choose|i: int| 0 <= i < keys.len() && #[trigger] str_of(keys[i]) == Some(key);
                assert(str_of(front[i]) == Some(key));
            }
        }
        match str_of(keys[last]) {
            None => {
                assert(gone =~= before);
            },
            Some(key) => {
                if m.contains_key(key) {
                    assert(gone =~= before.insert(key));
                } else {
                    assert(gone =~= before);
                }
            },
        }
        assert(after =~= m.remove_keys(gone));
    }
}

/// DEL removes every key that it names, and no other, and replies how many of them there were.
pub proof fn lemma_del(args: Seq<RespView>, m: Contents, now: u128)
    requires
        args.len() >= 2,
        command_name(RespView::Array(args)) == Some("DEL"@),
    ensures
        ({
            let gone = Set::new(
                |key: Seq<char>|
                    m.contains_key(key) && exists|i: int|
                        1 <= i < args.len() && #[trigger] str_of(args[i]) == Some(key),
            );
            &&& gone.finite()
            &&& executed(RespView::Array(args), m, now) == (Outcome {
                store: m.remove_keys(gone),
                reply: RespView::Integer(gone.len() as int),
            })
        }),
{
    lemma_dispatch(args, m, now);
    let keys = args.skip(1);
    lemma_deleted(m, keys);
    let gone = Set::new(
        |key: Seq<char>|
            m.contains_key(key) && exists|i: int| 1 <= i < args.len() && #[trigger] str_of(args[i]) == Some(key),
    );
    let named = Set::new(
        |key: Seq<char>|
            m.contains_key(key) && exists|i: int| 0 <= i < keys.len() && #[trigger] str_of(keys[i]) == Some(key),
    );
    assert forall|key: Seq<char>| gone.contains(key) <==> named.contains(key) by {
        if gone.contains(key) {
            let i = choose|i: int| 1 <= i < args.len() && #[trigger] str_of(args[i]) == Some(key);
            assert(str_of(keys[i - 1]) == Some(key));
        }
        if named.contains(key) {
            let i = choose|i: int| 0 <= i < keys.len() && #[trigger] str_of(keys[i]) == Some(key);
            assert(str_of(args[i + 1]) == Some(key));
        }
    }
    assert(gone =~= named);
}

/// Commands with too few or too many arguments, with keys that are no text, values that are no
/// string, or numbers and options that are none, are answered with an error that says so.
pub proof fn lemma_malformed(args: Seq<RespView>, m: Contents, now: u128)
    requires
        args.len() > 0,
    ensures
        ({
            let got = executed(RespView::Array(args), m, now).reply;
            let name = command_name(RespView::Array(args));
            let few = args.len() < 2;
            let odd = args.len() != 2;
            let number = RespView::Error("ERR value is not an integer or out of range"@);
            let key = RespView::Error("ERR invalid key"@);
            let argument = RespView::Error("ERR invalid argument"@);
            let set_count = RespView::Error("ERR wrong number of arguments for 'set' command"@);
            &&& name == Some("PING"@) && args.len() > 2 ==> got == RespView::Error(
                "ERR wrong number of arguments for 'ping' command"@,
            )
            &&& name == Some("PING"@) && args.len() == 2 && bytes_of(args[1]) is None ==> got == argument
            &&& name == Some("ECHO"@) && odd ==> got == RespView::Error("ERR wrong number of arguments for 'echo' command"@)
            &&& name == Some("ECHO"@) && !odd && bytes_of(args[1]) is None ==> got == argument
            &&& name == Some("GET"@) && odd ==> got == RespView::Error("ERR wrong number of arguments for 'get' command"@)
            &&& name == Some("EXISTS"@) && odd ==> got == RespView::Error(
                "ERR wrong number of arguments for 'exists' command"@,
            )
            &&& name == Some("TTL"@) && odd ==> got == RespView::Error("ERR wrong number of arguments for 'ttl' command"@)
            &&& (name == Some("GET"@) || name == Some("EXISTS"@) || name == Some("TTL"@)) && !odd && str_of(args[1]) is None
                ==> got == key
            &&& name == Some("DEL"@) && few ==> got == RespView::Error("ERR wrong number of arguments for 'del' command"@)
            &&& name == Some("EXPIRE"@) && args.len() != 3 ==> got == RespView::Error(
                "ERR wrong number of arguments for 'expire' command"@,
            )
            &&& name == Some("EXPIRE"@) && args.len() == 3 && str_of(args[1]) is None ==> got == key
            &&& name == Some("EXPIRE"@) && args.len() == 3 && str_of(args[1]) is Some && number_of(args[2]) is None
                ==> got == number
            &&& name == Some("SET"@) && args.len() < 3 ==> got == set_count
            &&& name == Some("SET"@) && args.len() >= 3 && str_of(args[1]) is None ==> got == key
            &&& name == Some("SET"@) && args.len() >= 3 && str_of(args[1]) is Some && bytes_of(args[2]) is None ==> got
                == RespView::Error("ERR invalid value"@)
            &&& name == Some("SET"@) && args.len() > 3 && str_of(args[1]) is Some && bytes_of(args[2]) is Some ==> {
                let option = str_of(args[3]);
                let timed = upper(option->0) == "EX"@ || upper(option->0) == "PX"@;
                &&& option is None ==> got == RespView::Error("ERR invalid option"@)
                &&& option is Some && !timed ==> got == RespView::Error("ERR syntax error"@)
                &&& option is Some && timed && args.len() == 4 ==> got == set_count
                &&& option is Some && timed && args.len() > 4 && number_of(args[4]) is None ==> got == number
            }
        }),
{
    lemma_dispatch(args, m, now);
    reveal_with_fuel(set_options, 2);
}

/// What is no array, an empty one, or one without a name that is a text is no command; a name that is
/// none of the eight is unknown.
pub proof fn lemma_no_command(value: RespView, m: Contents, now: u128)
    ensures
        ({
            let got = executed(value, m, now).reply;
            &&& !(value is Array) ==> got == RespView::Error("ERR expected array (RESP command)"@)
            &&& value matches RespView::Array(args) ==> {
                &&& args.len() == 0 ==> got == RespView::Error("ERR empty command"@)
                &&& args.len() > 0 && str_of(args[0]) is None ==> got == RespView::Error("ERR invalid command"@)
            }
            &&& command_name(value) matches Some(name) ==> (name != "PING"@ && name != "ECHO"@ && name != "SET"@ && name
                != "GET"@ && name != "DEL"@ && name != "EXISTS"@ && name != "TTL"@ && name != "EXPIRE"@ ==> got
                == RespView::Error("ERR unknown command"@))
        }),
{
}

/// One more option of SET, behind options that are in good order, is judged like the first.
pub proof fn lemma_later_option(args: Seq<RespView>, option: RespView, number: RespView, i: int, ttl: Option<u128>)
    requires
        0 <= i <= args.len(),
        set_options(args, i, ttl) is Ok,
    ensures
        ({
            let got = set_options(args + seq![option, number], i, ttl);
            let name = str_of(option);
            let timed = upper(name->0) == "EX"@ || upper(name->0) == "PX"@;
            &&& name is None ==> got == Err::<Option<u128>, Seq<char>>("ERR invalid option"@)
            &&& name is Some && !timed ==> got == Err::<Option<u128>, Seq<char>>("ERR syntax error"@)
            &&& name is Some && timed && number_of(number) is None ==> got == Err::<Option<u128>, Seq<char>>(
                "ERR value is not an integer or out of range"@,
            )
        }),
    decreases args.len() - i,
{
    let more = args + seq![option, number];
    if i >= args.len() {
        assert(more[i] == option && more[i + 1] == number);
        reveal_with_fuel(set_options, 2);
    } else {
        assert(more[i] == args[i]);
        assert(i + 1 < args.len());
        assert(more[i + 1] == args[i + 1]);
        let unit = if upper(str_of(args[i])->0) == "EX"@ { NANOS_PER_SEC } else { NANOS_PER_MILLI };
        lemma_later_option(args, option, number, i + 2, Some((number_of(args[i + 1])->0 * unit) as u128));
    }
}

/// SET with options stores for the time that they ask for, and for good if they ask for none.
pub proof fn lemma_set_by_options(args: Seq<RespView>, m: Contents, now: u128, key: Seq<char>, value: Seq<u8>)
    requires
        args.len() >= 3,
        command_name(RespView::Array(args)) == Some("SET"@),
        str_of(args[1]) == Some(key),
        bytes_of(args[2]) == Some(value),
    ensures
        match set_options(args, 3, None) {
            Ok(ttl) => executed(RespView::Array(args), m, now) == (Outcome {
                store: m.insert(
                    key,
                    (
                        value,
                        match ttl {
                            Some(d) => Some((now + d) as u128),
                            None => None,
                        },
                    ),
                ),
                reply: RespView::SimpleString("OK"@),
            }),
            Err(text) => executed(RespView::Array(args), m, now) == (Outcome { store: m, reply: RespView::Error(text) }),
        },
{
    lemma_dispatch(args, m, now);
}

} // verus!
