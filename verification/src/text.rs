//! Numbers and white space as text.
use vstd::prelude::*;

verus! {

/// The decimal digits of `n`, most significant first, without leading zeros.
pub open spec fn digits(n: nat) -> Seq<u8>
    decreases n,
{
    if n < 10 {
        seq![(48 + n) as u8]
    } else {
        digits(n / 10).push((48 + n % 10) as u8)
    }
}

/// The decimal text of `n`: a minus sign for negative numbers, then the digits.
pub open spec fn decimal(n: int) -> Seq<u8> {
    if n < 0 {
        seq![45u8] + digits((-n) as nat)
    } else {
        digits(n as nat)
    }
}

/// Appends the decimal digits of `n` to `out`.
pub fn push_digits(out: &mut Vec<u8>, n: u64)
    ensures
        final(out)@ == old(out)@ + digits(n as nat),
    decreases n,
{
    if n >= 10 {
        push_digits(out, n / 10);
        out.push((48 + n % 10) as u8);
    } else {
        out.push((48 + n) as u8);
    }
}

/// Appends the decimal text of `n` to `out`.
pub fn push_decimal(out: &mut Vec<u8>, n: i64)
    ensures
        final(out)@ == old(out)@ + decimal(n as int),
{
    if n < 0 {
        out.push(45u8);
        let magnitude: u64 = (-(n as i128)) as u64;
        push_digits(out, magnitude);
        assert(final(out)@ =~= old(out)@ + decimal(n as int));
    } else {
        push_digits(out, n as u64);
    }
}

/// Why a text is not an integer of the wanted range.
#[derive(Debug, Clone, Copy, PartialEq, Eq, Structural)]
pub enum IntError {
    Empty,
    InvalidDigit,
    TooLarge,
    TooSmall,
}

/// What is said of an integer error.
pub open spec fn int_error_text(e: IntError) -> Seq<char> {
    match e {
        IntError::Empty => "cannot parse integer from empty string"@,
        IntError::InvalidDigit => "invalid digit found in string"@,
        IntError::TooLarge => "number too large to fit in target type"@,
        IntError::TooSmall => "number too small to fit in target type"@,
    }
}

impl IntError {
    pub fn text(self) -> (s: &'static str)
        ensures
            s@ == int_error_text(self),
    {
        match self {
            IntError::Empty => "cannot parse integer from empty string",
            IntError::InvalidDigit => "invalid digit found in string",
            IntError::TooLarge => "number too large to fit in target type",
            IntError::TooSmall => "number too small to fit in target type",
        }
    }
}

pub open spec fn is_digit(b: u8) -> bool {
    48 <= b <= 57
}

/// Reads `s` digit by digit from the left, as a negative number if `neg`.
/// The first byte that is no digit, or that takes the number out of `lo..=hi`, decides the error.
pub open spec fn scan_digits(s: Seq<u8>, neg: bool, lo: int, hi: int) -> Result<int, IntError>
    decreases s.len(),
{
    if s.len() == 0 {
        Ok(0)
    } else {
        match scan_digits(s.drop_last(), neg, lo, hi) {
            Err(e) => Err(e),
            Ok(prefix) => {
                let digit = s.last() - 48;
                let next = if neg {
                    prefix * 10 - digit
                } else {
                    prefix * 10 + digit
                };
                if !is_digit(s.last()) {
                    Err(IntError::InvalidDigit)
                } else if next > hi {
                    Err(IntError::TooLarge)
                } else if next < lo {
                    Err(IntError::TooSmall)
                } else {
                    Ok(next)
                }
            },
        }
    }
}

/// The integer of `lo..=hi` that `s` writes: an optional `+`, or `-` where the range has
/// negative numbers, and at least one digit.
pub open spec fn read_int(s: Seq<u8>, lo: int, hi: int) -> Result<int, IntError> {
    if s.len() == 0 {
        Err(IntError::Empty)
    } else if s.len() == 1 && (s[0] == 43 || s[0] == 45) {
        Err(IntError::InvalidDigit)
    } else if s[0] == 43 {
        scan_digits(s.skip(1), false, lo, hi)
    } else if s[0] == 45 && lo < 0 {
        scan_digits(s.skip(1), true, lo, hi)
    } else {
        scan_digits(s, false, lo, hi)
    }
}

/// An error in a prefix is the error of the whole.
proof fn lemma_scan_error_persists(s: Seq<u8>, k: int, neg: bool, lo: int, hi: int)
    requires
        0 <= k <= s.len(),
        scan_digits(s.take(k), neg, lo, hi) is Err,
    ensures
        scan_digits(s, neg, lo, hi) == scan_digits(s.take(k), neg, lo, hi),
    decreases s.len() - k,
{
    if k == s.len() {
        assert(s.take(k) =~= s);
    } else {
        assert(s.take(k + 1).drop_last() =~= s.take(k));
        lemma_scan_error_persists(s, k + 1, neg, lo, hi);
    }
}

/// Scans `s[from..]`; `lo..=hi` must contain 0 and leave room for one more digit.
fn scan(s: &[u8], from: usize, neg: bool, lo: i128, hi: i128) -> (r: Result<i128, IntError>)
    requires
        from <= s@.len(),
        -0x1_0000_0000_0000_0000_0000 <= lo <= 0 <= hi <= 0x1_0000_0000_0000_0000_0000,
    ensures
        match r {
            Ok(n) => scan_digits(s@.skip(from as int), neg, lo as int, hi as int) == Ok::<int, IntError>(n as int),
            Err(e) => scan_digits(s@.skip(from as int), neg, lo as int, hi as int) == Err::<int, IntError>(e),
        },
{
    let ghost rest = s@.skip(from as int);
    let mut value: i128 = 0;
    let mut i: usize = from;
    assert(rest.take(0) =~= Seq::<u8>::empty());
    while i < s.len()
        invariant
            from <= i <= s@.len(),
            rest == s@.skip(from as int),
            lo <= value <= hi,
            -0x1_0000_0000_0000_0000_0000 <= lo <= 0 <= hi <= 0x1_0000_0000_0000_0000_0000,
            scan_digits(rest.take(i - from), neg, lo as int, hi as int) == Ok::<int, IntError>(value as int),
        decreases s@.len() - i,
    {
        let b = s[i];
        proof {
            assert(rest.take(i - from + 1).drop_last() =~= rest.take(i - from));
            assert(rest.take(i - from + 1).last() == b);
            if scan_digits(rest.take(i - from + 1), neg, lo as int, hi as int) is Err {
                lemma_scan_error_persists(rest, i - from + 1, neg, lo as int, hi as int);
            }
        }
        if b < 48 || b > 57 {
            return Err(IntError::InvalidDigit);
        }
        let digit: i128 = (b - 48) as i128;
        let next: i128 = if neg {
            value * 10 - digit
        } else {
            value * 10 + digit
        };
        if next > hi {
            return Err(IntError::TooLarge);
        }
        if next < lo {
            return Err(IntError::TooSmall);
        }
        value = next;
        i += 1;
    }
    assert(rest.take(i - from) =~= rest);
    Ok(value)
}

/// Reads a signed 64-bit integer.
pub fn parse_i64(s: &[u8]) -> (r: Result<i64, IntError>)
    ensures
        match r {
            Ok(n) => read_int(s@, i64::MIN as int, i64::MAX as int) == Ok::<int, IntError>(n as int),
            Err(e) => read_int(s@, i64::MIN as int, i64::MAX as int) == Err::<int, IntError>(e),
        },
{
    let lo: i128 = i64::MIN as i128;
    let hi: i128 = i64::MAX as i128;
    if s.len() == 0 {
        return Err(IntError::Empty);
    }
    if s.len() == 1 && (s[0] == 43 || s[0] == 45) {
        return Err(IntError::InvalidDigit);
    }
    proof {
        assert(s@.skip(0) =~= s@);
        lemma_scan_bounds(s@, false, lo as int, hi as int);
        lemma_scan_bounds(s@.skip(1), false, lo as int, hi as int);
        lemma_scan_bounds(s@.skip(1), true, lo as int, hi as int);
    }
    let scanned = if s[0] == 43 {
        scan(s, 1, false, lo, hi)
    } else if s[0] == 45 {
        scan(s, 1, true, lo, hi)
    } else {
        scan(s, 0, false, lo, hi)
    };
    match scanned {
        Ok(n) => Ok(n as i64),
        Err(e) => Err(e),
    }
}

/// What is read lies in the range.
proof fn lemma_scan_bounds(s: Seq<u8>, neg: bool, lo: int, hi: int)
    requires
        lo <= 0 <= hi,
    ensures
        scan_digits(s, neg, lo, hi) matches Ok(n) ==> lo <= n <= hi,
    decreases s.len(),
{
    if s.len() > 0 {
        lemma_scan_bounds(s.drop_last(), neg, lo, hi);
    }
}

/// Reads an unsigned 64-bit integer.
pub fn parse_u64(s: &[u8]) -> (r: Result<u64, IntError>)
    ensures
        match r {
            Ok(n) => read_int(s@, 0, u64::MAX as int) == Ok::<int, IntError>(n as int),
            Err(e) => read_int(s@, 0, u64::MAX as int) == Err::<int, IntError>(e),
        },
{
    let hi: i128 = u64::MAX as i128;
    if s.len() == 0 {
        return Err(IntError::Empty);
    }
    if s.len() == 1 && (s[0] == 43 || s[0] == 45) {
        return Err(IntError::InvalidDigit);
    }
    proof {
        assert(s@.skip(0) =~= s@);
        lemma_scan_bounds(s@, false, 0, hi as int);
        lemma_scan_bounds(s@.skip(1), false, 0, hi as int);
    }
    let scanned = if s[0] == 43 {
        scan(s, 1, false, 0, hi)
    } else {
        scan(s, 0, false, 0, hi)
    };
    match scanned {
        Ok(n) => Ok(n as u64),
        Err(e) => Err(e),
    }
}

/// The digits of a number are digits, and there is at least one.
pub proof fn lemma_digits_are_digits(n: nat)
    ensures
        digits(n).len() > 0,
        forall|i: int| 0 <= i < digits(n).len() ==> is_digit(#[trigger] digits(n)[i]),
    decreases n,
{
    if n >= 10 {
        lemma_digits_are_digits(n / 10);
    }
}

/// Scanning the digits of a number gives the number.
proof fn lemma_scan_digits_of(n: nat, neg: bool, lo: int, hi: int)
    requires
        lo <= 0 <= hi,
        neg ==> lo <= -n,
        !neg ==> n <= hi,
    ensures
        scan_digits(digits(n), neg, lo, hi) == Ok::<int, IntError>(if neg { -n } else { n as int }),
    decreases n,
{
    if n < 10 {
        assert(digits(n).drop_last() =~= Seq::<u8>::empty());
        assert(scan_digits(digits(n).drop_last(), neg, lo, hi) == Ok::<int, IntError>(0));
    } else {
        lemma_scan_digits_of(n / 10, neg, lo, hi);
        assert(digits(n).drop_last() =~= digits(n / 10));
    }
}

/// Reading the decimal text of a number of the range gives back the number.
pub proof fn lemma_read_decimal(n: int, lo: int, hi: int)
    requires
        lo <= 0 <= hi,
        lo <= n <= hi,
    ensures
        read_int(decimal(n), lo, hi) == Ok::<int, IntError>(n),
{
    if n < 0 {
        let m = (-n) as nat;
        lemma_digits_are_digits(m);
        assert(decimal(n).skip(1) =~= digits(m));
        lemma_scan_digits_of(m, true, lo, hi);
    } else {
        lemma_digits_are_digits(n as nat);
        assert(is_digit(digits(n as nat)[0]));
        lemma_scan_digits_of(n as nat, false, lo, hi);
    }
}

/// A number that is read lies in the range.
pub proof fn lemma_read_bounds(s: Seq<u8>, lo: int, hi: int)
    requires
        lo <= 0 <= hi,
    ensures
        read_int(s, lo, hi) matches Ok(n) ==> lo <= n <= hi,
{
    lemma_scan_bounds(s, false, lo, hi);
    lemma_scan_bounds(s.skip(1), false, lo, hi);
    lemma_scan_bounds(s.skip(1), true, lo, hi);
}

/// The lower-case hexadecimal digit of `n`.
pub open spec fn hex_digit(n: int) -> char {
    if n < 10 {
        (48 + n) as char
    } else {
        (87 + n) as char
    }
}

/// Writes a number below sixteen as a hexadecimal digit.
pub fn hex_char(n: u8) -> (c: char)
    requires
        n < 16,
    ensures
        c == hex_digit(n as int),
{
    if n < 10 {
        (48 + n) as char
    } else {
        (87 + n) as char
    }
}

/// How numbers are written: one below ten as its digit, any other as the number of its tens with the
/// digit behind it, and a negative one with a minus sign before what it is without.
pub proof fn lemma_written(n: nat, d: nat)
    requires
        d < 10,
    ensures
        digits(d) == seq![(48 + d) as u8],
        n > 0 ==> digits(10 * n + d) == digits(n).push((48 + d) as u8),
        decimal(n as int) == digits(n),
        n > 0 ==> decimal(-n) == seq![45u8] + digits(n),
{
    assert(n > 0 ==> (10 * n + d) / 10 == n && (10 * n + d) % 10 == d);
}

/// How numbers are read: one more digit makes ten times the number and the digit, as long as that is
/// in the range, and away from zero; with any other byte it is no number any more.
pub proof fn lemma_read_on(s: Seq<u8>, b: u8, lo: int, hi: int)
    requires
        lo <= 0 <= hi,
        read_int(s, lo, hi) is Ok,
    ensures
        ({
            let n = read_int(s, lo, hi)->Ok_0;
            let minus = s[0] == 45;
            let next = if minus { 10 * n - (b - 48) } else { 10 * n + (b - 48) };
            let got = read_int(s.push(b), lo, hi);
            &&& 48 <= b <= 57 && lo <= next <= hi ==> got == Ok::<int, IntError>(next)
            &&& 48 <= b <= 57 && next > hi ==> got == Err::<int, IntError>(IntError::TooLarge)
            &&& 48 <= b <= 57 && next < lo ==> got == Err::<int, IntError>(IntError::TooSmall)
            &&& b < 48 || b > 57 ==> got == Err::<int, IntError>(IntError::InvalidDigit)
        }),
{
    let more = s.push(b);
    assert(more.drop_last() =~= s);
    assert(more.skip(1) =~= s.skip(1).push(b));
    assert(s.skip(1).push(b).drop_last() =~= s.skip(1));
    if s[0] == 45 && lo >= 0 {
        lemma_sign_is_no_digit(s, lo, hi);
    }
}

proof fn lemma_sign_is_no_digit(s: Seq<u8>, lo: int, hi: int)
    requires
        s.len() > 0,
        !is_digit(s[0]),
    ensures
        scan_digits(s, false, lo, hi) is Err,
    decreases s.len(),
{
    if s.len() > 1 {
        lemma_sign_is_no_digit(s.drop_last(), lo, hi);
    }
}

/// What a single byte writes: a digit its number; anything else none, and neither does nothing.
pub proof fn lemma_read_first(b: u8, lo: int, hi: int)
    requires
        lo <= 0,
        9 <= hi,
    ensures
        48 <= b <= 57 ==> read_int(seq![b], lo, hi) == Ok::<int, IntError>(b - 48),
        b < 48 || b > 57 ==> read_int(seq![b], lo, hi) == Err::<int, IntError>(IntError::InvalidDigit),
        read_int(Seq::empty(), lo, hi) == Err::<int, IntError>(IntError::Empty),
        48 <= b <= 57 ==> read_int(seq![43u8, b], lo, hi) == Ok::<int, IntError>(b - 48),
        48 <= b <= 57 && lo <= -9 ==> read_int(seq![45u8, b], lo, hi) == Ok::<int, IntError>(48 - b),
        lo == 0 ==> read_int(seq![45u8, b], lo, hi) == Err::<int, IntError>(IntError::InvalidDigit),
{
    reveal_with_fuel(scan_digits, 3);
    assert(seq![b].drop_last() =~= Seq::<u8>::empty());
    assert(seq![43u8, b].skip(1) =~= seq![b]);
    assert(seq![45u8, b].skip(1) =~= seq![b]);
    assert(seq![45u8, b].drop_last() =~= seq![45u8]);
    assert(seq![45u8].drop_last() =~= Seq::<u8>::empty());
}

/// What is no number stays none, for the same reason, whatever follows, except for a sign alone.
pub proof fn lemma_no_number_stays(s: Seq<u8>, b: u8, lo: int, hi: int)
    requires
        read_int(s, lo, hi) is Err,
        s.len() > 1 || (s.len() == 1 && s[0] != 43 && s[0] != 45),
    ensures
        read_int(s.push(b), lo, hi) == read_int(s, lo, hi),
{
    let more = s.push(b);
    assert(more.drop_last() =~= s);
    assert(more.skip(1).drop_last() =~= s.skip(1));
}

} // verus!
