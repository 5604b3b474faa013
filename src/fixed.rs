//! Fixed-point values in tenths: parsing the input's decimal tokens and
//! rendering them back with one fractional digit.
use vstd::prelude::*;

use crate::RunError;

verus! {

pub const ZERO: u8 = 48;

pub const NINE: u8 = 57;

pub const DOT: u8 = 46;

pub const MINUS: u8 = 45;

pub open spec fn is_digit(b: u8) -> bool {
    ZERO <= b <= NINE
}

pub open spec fn digit_value(b: u8) -> int {
    b - ZERO
}

/// The value, in tenths, of a token without a sign: `D.D`, `DD.D`, `DDD.D`,
/// or the digits alone, `D`, `DD`, `DDD`, each read as the fractional form
/// with the same digit count.
pub open spec fn unsigned_value(s: Seq<u8>) -> Option<int> {
    if s.len() == 3 && is_digit(s[0]) && s[1] == DOT && is_digit(s[2]) {
        Some(digit_value(s[0]) * 10 + digit_value(s[2]))
    } else if s.len() == 4 && is_digit(s[0]) && is_digit(s[1]) && s[2] == DOT && is_digit(s[3]) {
        Some(digit_value(s[0]) * 100 + digit_value(s[1]) * 10 + digit_value(s[3]))
    } else if s.len() == 5 && is_digit(s[0]) && is_digit(s[1]) && is_digit(s[2]) && s[3] == DOT
        && is_digit(s[4]) {
        Some(
            digit_value(s[0]) * 1000 + digit_value(s[1]) * 100 + digit_value(s[2]) * 10
                + digit_value(s[4]),
        )
    } else if s.len() == 1 && is_digit(s[0]) {
        Some(digit_value(s[0]))
    } else if s.len() == 2 && is_digit(s[0]) && is_digit(s[1]) {
        Some(digit_value(s[0]) * 100 + digit_value(s[1]) * 10)
    } else if s.len() == 3 && is_digit(s[0]) && is_digit(s[1]) && is_digit(s[2]) {
        Some(digit_value(s[0]) * 1000 + digit_value(s[1]) * 100 + digit_value(s[2]) * 10)
    } else {
        None
    }
}

/// The value, in tenths, of a token with an optional leading `-`.
pub open spec fn value_of(s: Seq<u8>) -> Option<int> {
    if s.len() > 0 && s[0] == MINUS {
        match unsigned_value(s.subrange(1, s.len() as int)) {
            Some(v) => Some(-v),
            None => None,
        }
    } else {
        unsigned_value(s)
    }
}

/// Largest magnitude, in tenths, that a token can carry.
pub const MAX_MAGNITUDE: i32 = 9999;

pub proof fn lemma_value_bounded(s: Seq<u8>)
    requires
        value_of(s) is Some,
    ensures
        -MAX_MAGNITUDE <= value_of(s)->Some_0 <= MAX_MAGNITUDE,
{
}

fn digit(b: u8) -> (r: Option<i32>)
    ensures
        r == (if is_digit(b) { Some(digit_value(b) as i32) } else { None::<i32> }),
{
    if ZERO <= b && b <= NINE {
        Some((b - ZERO) as i32)
    } else {
        None
    }
}

fn parse_unsigned(s: &[u8]) -> (r: Option<i32>)
    ensures
        match r {
            Some(v) => unsigned_value(s@) == Some(v as int),
            None => unsigned_value(s@) is None,
        },
{
    let n = s.len();
    if n == 0 || n > 5 {
        return None;
    }
    let first = digit(s[0]);
    if n == 1 {
        return first;
    }
    let second = digit(s[1]);
    if n == 2 {
        return match (first, second) {
            (Some(a), Some(b)) => Some(a * 100 + b * 10),
            _ => None,
        };
    }
    let third = digit(s[2]);
    if n == 3 {
        return match (first, second, third) {
            (Some(a), None, Some(c)) if s[1] == DOT => Some(a * 10 + c),
            (Some(a), Some(b), Some(c)) => Some(a * 1000 + b * 100 + c * 10),
            _ => None,
        };
    }
    let fourth = digit(s[3]);
    if n == 4 {
        return match (first, second, fourth) {
            (Some(a), Some(b), Some(d)) if s[2] == DOT => Some(a * 100 + b * 10 + d),
            _ => None,
        };
    }
    let fifth = digit(s[4]);
    match (first, second, third, fifth) {
        (Some(a), Some(b), Some(c), Some(d)) if s[3] == DOT => Some(
            a * 1000 + b * 100 + c * 10 + d,
        ),
        _ => None,
    }
}

/// Reads a decimal token as a fixed-point value in tenths (`-12.3` is -123).
pub fn parse(s: &[u8]) -> (r: Result<i32, RunError>)
    ensures
        match r {
            Ok(v) => value_of(s@) == Some(v as int),
            Err(e) => value_of(s@) is None && e == RunError::InvalidRecordFormat,
        },
{
    if s.len() > 0 && s[0] == MINUS {
        let rest = slice_from(s, 1);
        assert(rest@ == s@.subrange(1, s@.len() as int));
        match parse_unsigned(rest) {
            Some(v) => Ok(-v),
            None => Err(RunError::InvalidRecordFormat),
        }
    } else {
        match parse_unsigned(s) {
            Some(v) => Ok(v),
            None => Err(RunError::InvalidRecordFormat),
        }
    }
}

/// Decimal digits of `n`, most significant first, without leading zeros.
pub open spec fn digits(n: nat) -> Seq<u8>
    decreases n,
{
    if n < 10 {
        seq![(ZERO + n) as u8]
    } else {
        digits(n / 10).push((ZERO + n % 10) as u8)
    }
}

/// A value in tenths written as `integer.fraction`, with a leading `-`
/// when negative (`-123` is `-12.3`).
pub open spec fn render(v: int) -> Seq<u8> {
    let a: nat = if v < 0 { (-v) as nat } else { v as nat };
    let body = digits(a / 10) + seq![DOT, (ZERO + a % 10) as u8];
    if v < 0 {
        seq![MINUS] + body
    } else {
        body
    }
}

fn push_digits(out: &mut Vec<u8>, n: u32)
    ensures
        final(out)@ == old(out)@ + digits(n as nat),
    decreases n,
{
    if n >= 10 {
        push_digits(out, n / 10);
    }
    out.push(ZERO + (n % 10) as u8);
    assert(final(out)@ =~= old(out)@ + digits(n as nat));
}

/// Writes a value in tenths with one fractional digit (`-123` as `-12.3`).
pub fn format(v: i32) -> (r: Vec<u8>)
    ensures
        r@ == render(v as int),
{
    let mut out: Vec<u8> = Vec::new();
    if v < 0 {
        out.push(MINUS);
    }
    let a: u32 = if v < 0 { (-(v as i64)) as u32 } else { v as u32 };
    push_digits(&mut out, a / 10);
    out.push(DOT);
    out.push(ZERO + (a % 10) as u8);
    assert(out@ =~= render(v as int));
    out
}

/// Reading back what `format` writes gives the value again, for every value
/// that a token can carry.
pub proof fn lemma_format_parse_round_trip(v: int)
    requires
        -MAX_MAGNITUDE <= v <= MAX_MAGNITUDE,
    ensures
        value_of(render(v)) == Some(v),
{
    let a: nat = if v < 0 { (-v) as nat } else { v as nat };
    let body = digits(a / 10) + seq![DOT, (ZERO + a % 10) as u8];
    reveal_with_fuel(digits, 3);
    assert(unsigned_value(body) == Some(a as int)) by {
        if a / 10 < 10 {
            assert(body =~= seq![(ZERO + a / 10) as u8, DOT, (ZERO + a % 10) as u8]);
        } else if a / 10 < 100 {
            assert(body =~= seq![
                (ZERO + a / 100) as u8,
                (ZERO + (a / 10) % 10) as u8,
                DOT,
                (ZERO + a % 10) as u8,
            ]);
        } else {
            assert(body =~= seq![
                (ZERO + a / 1000) as u8,
                (ZERO + (a / 100) % 10) as u8,
                (ZERO + (a / 10) % 10) as u8,
                DOT,
                (ZERO + a % 10) as u8,
            ]);
        }
    }
    if v < 0 {
        let r = seq![MINUS] + body;
        assert(r.subrange(1, r.len() as int) =~= body);
    } else {
        assert(body[0] != MINUS);
    }
}

/// The part of `s` from `start` to its end.
pub fn slice_from(s: &[u8], start: usize) -> (r: &[u8])
    requires
        start <= s@.len(),
    ensures
        r@ == s@.subrange(start as int, s@.len() as int),
{
    slice_range(s, start, s.len())
}

/// The part of `s` from `start` up to, not including, `end`.
pub fn slice_range(s: &[u8], start: usize, end: usize) -> (r: &[u8])
    requires
        start <= end <= s@.len(),
    ensures
        r@ == s@.subrange(start as int, end as int),
{
    &s[start..end]
}

} // verus!
