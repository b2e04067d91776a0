//! Load on a cluster: what the workers ask for, and what is measured.
use vstd::prelude::*;
use vstd::arithmetic::power::{lemma_pow1, pow};
use vstd::utf8::{encode_utf8, is_ascii_chars, is_ascii_chars_encode_utf8};
use crate::chance::{draw_between, draw_u64};
use crate::messages::{DeleteRequest, GetRequest, SetRequest};
use crate::resp::command_laws::arg;
use crate::resp::encoder::{encode_array, encoded};
use crate::resp::laws::{lemma_parse_encoded, sendable};
use crate::resp::parser::{parsed, ParseView};
use crate::resp::value::{RespValue, RespView};
use crate::text::{digits, is_digit, lemma_digits_are_digits, lemma_read_decimal, read_int, IntError};
use crate::utf8::{ascii_text, lemma_ascii_text};

verus! {

/// Milliseconds that the workers let a key live.
pub const LOAD_TTL_MS: u64 = 60_000;

/// Seconds of the load before a combined run.
pub const WARM_UP_SECS: u64 = 5;

/// How many different keys a combined run uses.
pub const RUN_KEY_SPACE: usize = 1000;

/// What a worker asks for.
#[derive(Debug)]
pub enum Operation {
    Put { key: String, value: String },
    Get { key: String },
    Delete { key: String },
}

/// The mathematical content of an [`Operation`].
pub enum OperationView {
    Put { key: Seq<char>, value: Seq<char> },
    Get { key: Seq<char> },
    Delete { key: Seq<char> },
}

impl View for Operation {
    type V = OperationView;

    open spec fn view(&self) -> OperationView {
        match self {
            Operation::Put { key, value } => OperationView::Put { key: key@, value: value@ },
            Operation::Get { key } => OperationView::Get { key: key@ },
            Operation::Delete { key } => OperationView::Delete { key: key@ },
        }
    }
}

/// A number behind a word.
pub open spec fn numbered(word: Seq<char>, n: nat) -> Seq<char> {
    word + ascii_text(digits(n))
}

/// Half of the rolls, of a hundred, write; four tenths read; the others delete.
pub open spec fn rolled(roll: u8, index: usize, value: u64) -> OperationView {
    let key = numbered("key_"@, index as nat);
    if roll < 50 {
        OperationView::Put { key, value: numbered("value_"@, value as nat) }
    } else if roll < 90 {
        OperationView::Get { key }
    } else {
        OperationView::Delete { key }
    }
}

/// The command that asks for the operation.
pub open spec fn command(op: OperationView) -> RespView {
    match op {
        OperationView::Put { key, value } => RespView::Array(seq![arg("SET"@), arg(key), arg(value)]),
        OperationView::Get { key } => RespView::Array(seq![arg("GET"@), arg(key)]),
        OperationView::Delete { key } => RespView::Array(seq![arg("DEL"@), arg(key)]),
    }
}

/// Appends the decimal digits of a number.
fn push_number(s: &mut String, n: u64)
    ensures
        final(s)@ == old(s)@ + ascii_text(digits(n as nat)),
    decreases n,
{
    if n >= 10 {
        push_number(s, n / 10);
    }
    s.push((48 + (n % 10) as u8) as char);
    assert(s@ =~= old(s)@ + ascii_text(digits(n as nat)));
}

fn numbered_text(word: &str, n: u64) -> (s: String)
    ensures
        s@ == numbered(word@, n as nat),
{
    let mut s = word.to_string();
    push_number(&mut s, n);
    s
}

/// The operation that a roll of a hundred, the number of a key and that of a value stand for.
pub fn operation(roll: u8, index: usize, value: u64) -> (op: Operation)
    ensures
        op@ == rolled(roll, index, value),
{
    let key = numbered_text("key_", index as u64);
    if roll < 50 {
        Operation::Put { key, value: numbered_text("value_", value) }
    } else if roll < 90 {
        Operation::Get { key }
    } else {
        Operation::Delete { key }
    }
}

/// Draws an operation on one of so many keys.
pub fn draw_operation(key_space: usize) -> (op: Operation)
    requires
        key_space > 0,
    ensures
        exists|roll: u8, index: usize, value: u64|
            roll < 100 && index < key_space && #[trigger] rolled(roll, index, value) == op@,
{
    let index = draw_between(0, key_space - 1);
    let roll: u8 = draw_between(0, 99) as u8;
    let value: u64 = draw_u64();
    operation(roll, index, value)
}

fn bulk(s: &str) -> (v: RespValue)
    ensures
        v@ == arg(s@),
{
    RespValue::BulkString(vstd::slice::slice_to_vec(s.as_bytes()))
}

/// A request of the cache service.
#[derive(Debug)]
pub enum CacheRequest {
    Put(SetRequest),
    Get(GetRequest),
    Delete(DeleteRequest),
}

impl Operation {
    /// The operation as a RESP command.
    pub fn to_resp(&self) -> (bytes: Vec<u8>)
        ensures
            bytes@ == encoded(command(self@)),
    {
        let mut items: Vec<RespValue> = Vec::new();
        match self {
            Operation::Put { key, value } => {
                items.push(bulk("SET"));
                items.push(bulk(key.as_str()));
                items.push(bulk(value.as_str()));
            },
            Operation::Get { key } => {
                items.push(bulk("GET"));
                items.push(bulk(key.as_str()));
            },
            Operation::Delete { key } => {
                items.push(bulk("DEL"));
                items.push(bulk(key.as_str()));
            },
        }
        assert(items@.map_values(|v: RespValue| v@) =~= command(self@)->Array_0);
        encode_array(items.as_slice())
    }

    /// The operation as a request of the cache service.
    pub fn to_request(self) -> (req: CacheRequest)
        ensures
            match self@ {
                OperationView::Put { key, value } => req matches CacheRequest::Put(r) && r.key@ == key && r.value@
                    == encode_utf8(value) && r.ttl_ms == Some(60_000u64),
                OperationView::Get { key } => req matches CacheRequest::Get(r) && r.key@ == key,
                OperationView::Delete { key } => req matches CacheRequest::Delete(r) && r.key@ == key,
            },
    {
        match self {
            Operation::Put { key, value } => CacheRequest::Put(
                SetRequest {
                    key,
                    value: vstd::slice::slice_to_vec(value.as_str().as_bytes()),
                    ttl_ms: Some(LOAD_TTL_MS),
                },
            ),
            Operation::Get { key } => CacheRequest::Get(GetRequest { key }),
            Operation::Delete { key } => CacheRequest::Delete(DeleteRequest { key }),
        }
    }
}

/// The numbers stand in rising order.
pub open spec fn sorted(s: Seq<u64>) -> bool {
    forall|i: int, j: int| 0 <= i <= j < s.len() ==> s[i] <= s[j]
}

/// Calls `sort_unstable` on a vector of integers: the same numbers stand in rising order.
#[verifier::external_body]
fn sort(v: &mut Vec<u64>)
    ensures
        sorted(final(v)@),
        final(v)@.to_multiset() == old(v)@.to_multiset(),
{
    v.sort_unstable();
}

/// The median, the 99th percentile and the maximum of numbers in rising order.
pub open spec fn percentiles(s: Seq<u64>) -> (u64, u64, u64) {
    if s.len() == 0 {
        (0, 0, 0)
    } else {
        (s[s.len() as int * 50 / 100], s[s.len() as int * 99 / 100], s[s.len() - 1])
    }
}

/// How many operations there were, how many of them succeeded and failed, and how long they
/// took.
pub struct LoadMetrics {
    total_ops: u64,
    successful_ops: u64,
    failed_ops: u64,
    latencies_us: Vec<u64>,
}

/// The mathematical content of [`LoadMetrics`].
pub struct MetricsView {
    pub total: u64,
    pub successful: u64,
    pub failed: u64,
    pub latencies: Seq<u64>,
}

impl View for LoadMetrics {
    type V = MetricsView;

    closed spec fn view(&self) -> MetricsView {
        MetricsView {
            total: self.total_ops,
            successful: self.successful_ops,
            failed: self.failed_ops,
            latencies: self.latencies_us@,
        }
    }
}

/// One more, in 64 bits.
pub open spec fn counted(n: u64) -> u64 {
    if n == u64::MAX {
        0
    } else {
        (n + 1) as u64
    }
}

impl MetricsView {
    /// Every operation succeeded or failed.
    pub open spec fn balanced(self) -> bool {
        self.total == (self.successful + self.failed) % 0x1_0000_0000_0000_0000
    }
}

impl LoadMetrics {
    pub fn new() -> (metrics: Self)
        ensures
            metrics@ == (MetricsView { total: 0, successful: 0, failed: 0, latencies: seq![] }),
            metrics@.balanced(),
    {
        let metrics = Self { total_ops: 0, successful_ops: 0, failed_ops: 0, latencies_us: Vec::new() };
        assert(metrics.latencies_us@ =~= seq![]);
        metrics
    }

    pub fn record_success(&mut self, _latency_us: u64)
        ensures
            final(self)@ == (MetricsView {
                total: counted(old(self)@.total),
                successful: counted(old(self)@.successful),
                ..old(self)@
            }),
            old(self)@.balanced() ==> final(self)@.balanced(),
    {
        self.total_ops = self.total_ops.wrapping_add(1);
        self.successful_ops = self.successful_ops.wrapping_add(1);
    }

    pub fn record_failure(&mut self)
        ensures
            final(self)@ == (MetricsView {
                total: counted(old(self)@.total),
                failed: counted(old(self)@.failed),
                ..old(self)@
            }),
            old(self)@.balanced() ==> final(self)@.balanced(),
    {
        self.total_ops = self.total_ops.wrapping_add(1);
        self.failed_ops = self.failed_ops.wrapping_add(1);
    }

    pub fn record_latency(&mut self, latency_us: u64)
        ensures
            final(self)@ == (MetricsView { latencies: old(self)@.latencies.push(latency_us), ..old(self)@ }),
            old(self)@.balanced() ==> final(self)@.balanced(),
    {
        self.latencies_us.push(latency_us);
    }

    /// Records what came of an operation: the time it took if it succeeded, else `None`.
    pub fn record(&mut self, latency_us: Option<u64>)
        ensures
            final(self)@ == (match latency_us {
                Some(t) => MetricsView {
                    total: counted(old(self)@.total),
                    successful: counted(old(self)@.successful),
                    latencies: old(self)@.latencies.push(t),
                    ..old(self)@
                },
                None => MetricsView {
                    total: counted(old(self)@.total),
                    failed: counted(old(self)@.failed),
                    ..old(self)@
                },
            }),
            old(self)@.balanced() ==> final(self)@.balanced(),
    {
        match latency_us {
            Some(t) => {
                self.record_success(t);
                self.record_latency(t);
            },
            None => self.record_failure(),
        }
    }

    /// The median, the 99th percentile and the maximum of the times; all 0 if there are none.
    pub fn compute_percentiles(&mut self) -> (r: (u64, u64, u64))
        ensures
            r == percentiles(final(self)@.latencies),
            sorted(final(self)@.latencies),
            final(self)@.latencies.to_multiset() == old(self)@.latencies.to_multiset(),
            final(self)@ == (MetricsView { latencies: final(self)@.latencies, ..old(self)@ }),
    {
        if self.latencies_us.len() == 0 {
            assert(sorted(self.latencies_us@));
            return (0, 0, 0);
        }
        sort(&mut self.latencies_us);
        proof {
            old(self).latencies_us@.to_multiset_ensures();
            self.latencies_us@.to_multiset_ensures();
        }
        let n: usize = self.latencies_us.len();
        let mid: usize = (n as u128 * 50 / 100) as usize;
        let high: usize = (n as u128 * 99 / 100) as usize;
        (self.latencies_us[mid], self.latencies_us[high], self.latencies_us[n - 1])
    }

    /// The operations, those that succeeded, and those that failed.
    pub fn summary(&self) -> (r: (u64, u64, u64))
        ensures
            r == (self@.total, self@.successful, self@.failed),
    {
        (self.total_ops, self.successful_ops, self.failed_ops)
    }
}

/// What a run over both protocols came to.
#[derive(Debug)]
pub struct LoadSummary {
    pub total_ops: u64,
    pub successful: u64,
    pub failed: u64,
    pub grpc: (u64, u64, u64),
    pub resp: (u64, u64, u64),
}

/// Sums up the two protocols.
pub fn summarize(grpc: &mut LoadMetrics, resp: &mut LoadMetrics) -> (s: LoadSummary)
    requires
        old(grpc)@.total + old(resp)@.total <= u64::MAX,
        old(grpc)@.successful + old(resp)@.successful <= u64::MAX,
        old(grpc)@.failed + old(resp)@.failed <= u64::MAX,
    ensures
        s.total_ops == old(grpc)@.total + old(resp)@.total,
        s.successful == old(grpc)@.successful + old(resp)@.successful,
        s.failed == old(grpc)@.failed + old(resp)@.failed,
        s.grpc == percentiles(final(grpc)@.latencies),
        s.resp == percentiles(final(resp)@.latencies),
        sorted(final(grpc)@.latencies),
        sorted(final(resp)@.latencies),
        final(grpc)@.latencies.to_multiset() == old(grpc)@.latencies.to_multiset(),
        final(resp)@.latencies.to_multiset() == old(resp)@.latencies.to_multiset(),
        final(grpc)@ == (MetricsView { latencies: final(grpc)@.latencies, ..old(grpc)@ }),
        final(resp)@ == (MetricsView { latencies: final(resp)@.latencies, ..old(resp)@ }),
{
    let (grpc_total, grpc_success, grpc_failed) = grpc.summary();
    let (resp_total, resp_success, resp_failed) = resp.summary();
    LoadSummary {
        total_ops: grpc_total + resp_total,
        successful: grpc_success + resp_success,
        failed: grpc_failed + resp_failed,
        grpc: grpc.compute_percentiles(),
        resp: resp.compute_percentiles(),
    }
}

impl LoadSummary {
    /// The status that a combined run exits with: a failure if any operation failed.
    pub fn exit_code(&self) -> (code: i32)
        ensures
            code == (if self.failed > 0 { 1i32 } else { 0i32 }),
    {
        if self.failed > 0 {
            1
        } else {
            0
        }
    }
}

/// How many workers use gRPC, and how many RESP.
pub fn split_workers(workers: usize) -> (r: (usize, usize))
    ensures
        r.0 == workers / 2,
        r.0 + r.1 == workers,
{
    let grpc_workers: usize = workers / 2;
    (grpc_workers, workers - grpc_workers)
}

/// The seconds between two rounds of chaos.
pub fn chaos_interval(duration_secs: u64, rounds: usize) -> (secs: u64)
    requires
        rounds > 0,
    ensures
        secs == duration_secs / (rounds as u64),
{
    duration_secs / (rounds as u64)
}

/// The times rise from the median over the 99th percentile to the maximum, which no time that
/// was recorded exceeds.
pub proof fn lemma_percentiles(s: Seq<u64>)
    requires
        sorted(s),
        s.len() > 0,
    ensures
        percentiles(s).0 <= percentiles(s).1 <= percentiles(s).2,
        forall|i: int| 0 <= i < s.len() ==> #[trigger] s[i] <= percentiles(s).2,
        s.contains(percentiles(s).0) && s.contains(percentiles(s).1) && s.contains(percentiles(s).2),
{
    let n = s.len() as int;
    assert(0 <= n * 50 / 100 <= n * 99 / 100 < n);
}

/// A node that reads the bytes of a worker's command reads the command.
pub proof fn lemma_command_read(roll: u8, index: usize, value: u64, rest: Seq<u8>)
    ensures
        ({
            let sent = command(rolled(roll, index, value));
            parsed(encoded(sent) + rest) == ParseView::Complete(sent, encoded(sent).len() as int)
        }),
{
    let op = rolled(roll, index, value);
    assert(sendable(command(op))) by {
        lemma_short_key(index as nat);
        lemma_short_value(value as nat);
        reveal_strlit("SET");
        reveal_strlit("GET");
        reveal_strlit("DEL");
        is_ascii_chars_encode_utf8("SET"@);
        is_ascii_chars_encode_utf8("GET"@);
        is_ascii_chars_encode_utf8("DEL"@);
        reveal_with_fuel(sendable, 2);
    }
    lemma_parse_encoded(command(op), rest);
}

/// A number of 64 bits has at most twenty digits.
proof fn lemma_few_digits(n: nat, bound: nat, count: nat)
    requires
        n < bound,
        bound == pow(10, count),
        count > 0,
    ensures
        digits(n).len() <= count,
    decreases count,
{
    lemma_pow1(10);
    if n >= 10 {
        if count == 1 {
            assert(false);
        }
        let next = pow(10, (count - 1) as nat);
        reveal(pow);
        assert(bound == 10 * next);
        lemma_few_digits(n / 10, next as nat, (count - 1) as nat);
    }
}

proof fn lemma_short_key(n: nat)
    requires
        n <= u64::MAX,
    ensures
        encode_utf8(numbered("key_"@, n)).len() <= 100,
{
    reveal_strlit("key_");
    lemma_short(("key_")@, n);
}

proof fn lemma_short_value(n: nat)
    requires
        n <= u64::MAX,
    ensures
        encode_utf8(numbered("value_"@, n)).len() <= 100,
{
    reveal_strlit("value_");
    lemma_short(("value_")@, n);
}

proof fn lemma_short(word: Seq<char>, n: nat)
    requires
        n <= u64::MAX,
        word.len() <= 10,
        is_ascii_chars(word),
    ensures
        encode_utf8(numbered(word, n)).len() <= 100,
{
    assert(pow(10, 20) == 100_000_000_000_000_000_000) by {
        reveal_with_fuel(pow, 21);
    }
    lemma_few_digits(n, 100_000_000_000_000_000_000, 20);
    lemma_digits_are_digits(n);
    let s = numbered(word, n);
    assert forall|i: int| 0 <= i < s.len() implies '\0' <= #[trigger] s[i] <= '\u{7f}' by {
        if i < word.len() {
            assert(s[i] == word[i]);
        } else {
            assert(is_digit(digits(n)[i - word.len()]));
        }
    }
    is_ascii_chars_encode_utf8(s);
}

/// Of a hundred rolls fifty write, forty read and ten delete, on the key with the number; the text of
/// the key and of the value end in their numbers.
pub proof fn lemma_rolled(roll: u8, index: usize, value: u64)
    ensures
        ({
            let op = rolled(roll, index, value);
            let key = match op {
                OperationView::Put { key, .. } => key,
                OperationView::Get { key } => key,
                OperationView::Delete { key } => key,
            };
            &&& op is Put <==> roll < 50
            &&& op is Get <==> 50 <= roll < 90
            &&& op is Delete <==> 90 <= roll
            &&& key.take(4) == "key_"@
            &&& read_int(encode_utf8(key.skip(4)), 0, index as int) == Ok::<int, IntError>(index as int)
            &&& op matches OperationView::Put { value: text, .. } ==> text.take(6) == "value_"@ && read_int(
                encode_utf8(text.skip(6)),
                0,
                value as int,
            ) == Ok::<int, IntError>(value as int)
        }),
{
    reveal_strlit("key_");
    reveal_strlit("value_");
    lemma_numbered("key_"@, index as nat);
    lemma_numbered("value_"@, value as nat);
}

proof fn lemma_numbered(word: Seq<char>, n: nat)
    ensures
        numbered(word, n).take(word.len() as int) == word,
        encode_utf8(numbered(word, n).skip(word.len() as int)) == digits(n),
        read_int(digits(n), 0, n as int) == Ok::<int, IntError>(n as int),
{
    assert(numbered(word, n).take(word.len() as int) =~= word);
    assert(numbered(word, n).skip(word.len() as int) =~= ascii_text(digits(n)));
    lemma_digits_are_digits(n);
    assert forall|i: int| 0 <= i < digits(n).len() implies #[trigger] digits(n)[i] < 128 by {
        assert(is_digit(digits(n)[i]));
    }
    lemma_ascii_text(digits(n));
    lemma_read_decimal(n as int, 0, n as int);
}

/// The percentiles stand at their ranks: the median has as many times before it as make up half of
/// all, rounded down, the 99th percentile as many as make up 99 of a hundred, and the maximum all
/// others.
pub proof fn lemma_ranks(s: Seq<u64>)
    requires
        s.len() > 0,
    ensures
        exists|k: int| 0 <= k < s.len() && 2 * k <= s.len() < 2 * k + 2 && percentiles(s).0 == #[trigger] s[k],
        exists|k: int|
            0 <= k < s.len() && 100 * k <= 99 * s.len() < 100 * k + 100 && percentiles(s).1 == #[trigger] s[k],
        percentiles(s).2 == s[s.len() - 1],
{
    let n = s.len() as int;
    assert(percentiles(s).0 == s[n * 50 / 100]);
    assert(percentiles(s).1 == s[n * 99 / 100]);
}

/// The command for an operation names it and its key, and for a write the value.
pub proof fn lemma_commands(key: Seq<char>, value: Seq<char>)
    ensures
        command(OperationView::Put { key, value }) == RespView::Array(
            seq![
                RespView::BulkString(encode_utf8("SET"@)),
                RespView::BulkString(encode_utf8(key)),
                RespView::BulkString(encode_utf8(value)),
            ],
        ),
        command(OperationView::Get { key }) == RespView::Array(
            seq![RespView::BulkString(encode_utf8("GET"@)), RespView::BulkString(encode_utf8(key))],
        ),
        command(OperationView::Delete { key }) == RespView::Array(
            seq![RespView::BulkString(encode_utf8("DEL"@)), RespView::BulkString(encode_utf8(key))],
        ),
{
}

/// A count goes up by one, and from the highest number of 64 bits to zero.
pub proof fn lemma_counted(n: u64)
    ensures
        counted(n) == (n + 1) % 0x1_0000_0000_0000_0000,
{
}

/// An operation is known by its sort, its key and its value.
pub proof fn lemma_operation_view(key: String, value: String)
    ensures
        (Operation::Put { key, value })@ == (OperationView::Put { key: key@, value: value@ }),
        (Operation::Get { key })@ == (OperationView::Get { key: key@ }),
        (Operation::Delete { key })@ == (OperationView::Delete { key: key@ }),
{
}

/// Rising order means that no number stands behind a greater one.
pub proof fn lemma_sorted(s: Seq<u64>)
    ensures
        sorted(s) <==> forall|i: int, j: int| 0 <= i < j < s.len() ==> #[trigger] s[i] <= #[trigger] s[j],
{
}

} // verus!
