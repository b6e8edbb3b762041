//! Reading the `from` and `until` times of render and find requests.
use vstd::prelude::*;
use crate::error::ParseError;
use crate::number::{lemma_decimal_digits, lemma_decimal_round_trip, parse_u32, u32_of};
use crate::text::decimal;
use crate::text::{chars_eq, chars_of};
use crate::trusted::{since_epoch, system_now};

verus! {

/// `s` ends with `t`.
pub open spec fn ends_with(s: Seq<char>, t: Seq<char>) -> bool {
    s.len() >= t.len() && s.skip(s.len() - t.len()) == t
}

/// For a relative time, the number of seconds in its unit and the length of
/// the unit's suffix: `s`, `h`, `d`, `w`, `y`, `min`, `mon`.
pub open spec fn relative_unit(s: Seq<char>) -> Option<(int, int)> {
    let c = s.last();
    if c == 's' {
        Some((1, 1))
    } else if c == 'h' {
        Some((3600, 1))
    } else if c == 'd' {
        Some((86400, 1))
    } else if c == 'w' {
        Some((604800, 1))
    } else if c == 'y' {
        Some((31536000, 1))
    } else if c == 'n' && ends_with(s, seq!['m', 'i', 'n']) {
        Some((60, 3))
    } else if c == 'n' && ends_with(s, seq!['m', 'o', 'n']) {
        Some((2592000, 3))
    } else {
        None
    }
}

/// `s` is relative: it starts with `-`.
pub open spec fn is_relative(s: Seq<char>) -> bool {
    s.len() > 0 && s[0] == '-'
}

/// The word `now`.
pub open spec fn now_word() -> Seq<char> {
    seq!['n', 'o', 'w']
}

/// The word `yesterday`.
pub open spec fn yesterday_word() -> Seq<char> {
    seq!['y', 'e', 's', 't', 'e', 'r', 'd', 'a', 'y']
}

/// The time that `s` denotes when the clock reads `now`: `-N` followed by a
/// unit is `N` units before now, `now` and `yesterday` are now and a day
/// before, and anything else is a Unix timestamp.
pub open spec fn time_value(s: Seq<char>, now: int) -> Result<int, ParseError> {
    if is_relative(s) {
        match relative_unit(s) {
            None => Err(ParseError::Time),
            Some((mult, count)) => match u32_of(s.subrange(1, s.len() - count)) {
                Ok(n) => Ok(now - n * mult),
                Err(k) => Err(ParseError::ParseIntError(k)),
            },
        }
    } else if s == now_word() {
        Ok(now)
    } else if s == yesterday_word() {
        Ok(now - 86400)
    } else if s.len() == 0 {
        Err(ParseError::EmptyString)
    } else {
        match u32_of(s) {
            Ok(n) => Ok(n),
            Err(k) => Err(ParseError::ParseIntError(k)),
        }
    }
}

/// The time of `s` can be computed at `now` without going below zero or
/// above `u32::MAX`.
pub open spec fn time_defined(s: Seq<char>, now: int) -> bool {
    if is_relative(s) {
        match relative_unit(s) {
            Some((mult, count)) => match u32_of(s.subrange(1, s.len() - count)) {
                Ok(n) => n * mult <= now,
                Err(_) => true,
            },
            None => true,
        }
    } else if s == yesterday_word() {
        now >= 86400
    } else {
        true
    }
}

/// Reading `s` needs the clock.
pub open spec fn uses_clock(s: Seq<char>) -> bool {
    (is_relative(s) && relative_unit(s) is Some) || s == now_word() || s == yesterday_word()
}

fn relative_unit_of(v: &[char]) -> (r: Option<(u32, usize)>)
    requires
        v.len() > 0,
    ensures
        match r {
            Some((m, c)) => relative_unit(v@) == Some((m as int, c as int)) && 1 <= c <= 3 && 1 <= m <= 31536000,
            None => relative_unit(v@) is None,
        },
{
    let n = v.len();
    let c = v[n - 1];
    if c == 's' {
        Some((1, 1))
    } else if c == 'h' {
        Some((3600, 1))
    } else if c == 'd' {
        Some((86400, 1))
    } else if c == 'w' {
        Some((604800, 1))
    } else if c == 'y' {
        Some((31536000, 1))
    } else if c == 'n' && n >= 3 && v[n - 3] == 'm' && v[n - 2] == 'i' {
        proof {
            assert(v@.skip(n - 3) =~= seq!['m', 'i', 'n']);
        }
        Some((60, 3))
    } else if c == 'n' && n >= 3 && v[n - 3] == 'm' && v[n - 2] == 'o' {
        proof {
            assert(v@.skip(n - 3) =~= seq!['m', 'o', 'n']);
            assert(!(v@.skip(n - 3) == seq!['m', 'i', 'n'])) by {
                assert(v@.skip(n - 3)[1] == 'o');
            }
        }
        Some((2592000, 3))
    } else {
        proof {
            if n >= 3 {
                assert(v@.skip(n - 3)[0] == v@[n - 3]);
                assert(v@.skip(n - 3)[1] == v@[n - 2]);
            }
        }
        None
    }
}

/// The time that `s` denotes when the clock reads `now`.
pub fn time_parse_at(s: &str, now: u32) -> (r: Result<u32, ParseError>)
    requires
        time_defined(s@, now as int),
    ensures
        match r {
            Ok(v) => time_value(s@, now as int) == Ok::<int, ParseError>(v as int),
            Err(e) => time_value(s@, now as int) == Err::<int, ParseError>(e),
        },
{
    let v = chars_of(s);
    let n = v.len();
    if n > 0 && v[0] == '-' {
        let (mult, count) = match relative_unit_of(v.as_slice()) {
            Some(x) => x,
            None => return Err(ParseError::Time),
        };
        match parse_u32(v.as_slice(), 1, n - count) {
            Ok(k) => {
                let amount: u64 = (k as u64) * (mult as u64);
                Ok(now - (amount as u32))
            },
            Err(k) => Err(ParseError::ParseIntError(k)),
        }
    } else {
        let nw = ['n', 'o', 'w'];
        let yw = ['y', 'e', 's', 't', 'e', 'r', 'd', 'a', 'y'];
        proof {
            assert(nw@ =~= now_word());
            assert(yw@ =~= yesterday_word());
        }
        if chars_eq(v.as_slice(), &nw) {
            Ok(now)
        } else if chars_eq(v.as_slice(), &yw) {
            Ok(now - 86400)
        } else if n == 0 {
            Err(ParseError::EmptyString)
        } else {
            match parse_u32(v.as_slice(), 0, n) {
                Ok(k) => {
                    proof {
                        assert(v@.subrange(0, n as int) =~= v@);
                    }
                    Ok(k)
                },
                Err(k) => {
                    proof {
                        assert(v@.subrange(0, n as int) =~= v@);
                    }
                    Err(ParseError::ParseIntError(k))
                },
            }
        }
    }
}

/// Whether `s` can be read at `now` without leaving the range of `u32`.
fn time_in_range(s: &str, now: u32) -> (b: bool)
    ensures
        b == time_defined(s@, now as int),
{
    let v = chars_of(s);
    let n = v.len();
    if n > 0 && v[0] == '-' {
        match relative_unit_of(v.as_slice()) {
            Some((mult, count)) => match parse_u32(v.as_slice(), 1, n - count) {
                Ok(k) => {
                    assert((k as u64) * (mult as u64) <= 4294967295u64 * 31536000u64) by (nonlinear_arith)
                        requires k <= 4294967295u32, mult <= 31536000u32;
                    (k as u64) * (mult as u64) <= now as u64
                },
                Err(_) => true,
            },
            None => true,
        }
    } else {
        let yw = ['y', 'e', 's', 't', 'e', 'r', 'd', 'a', 'y'];
        proof {
            assert(yw@ =~= yesterday_word());
        }
        if chars_eq(v.as_slice(), &yw) {
            now >= 86400
        } else {
            true
        }
    }
}

/// Whether reading `s` needs the clock.
pub fn needs_clock(s: &str) -> (b: bool)
    ensures
        b == uses_clock(s@),
{
    let v = chars_of(s);
    let nw = ['n', 'o', 'w'];
    let yw = ['y', 'e', 's', 't', 'e', 'r', 'd', 'a', 'y'];
    proof {
        assert(nw@ =~= now_word());
        assert(yw@ =~= yesterday_word());
    }
    (v.len() > 0 && v[0] == '-' && relative_unit_of(v.as_slice()).is_some()) || chars_eq(v.as_slice(), &nw)
        || chars_eq(v.as_slice(), &yw)
}

/// The time that `s` denotes at `now`, or `Time` where it would fall outside
/// the range of `u32`.
pub open spec fn time_result(s: Seq<char>, now: int) -> Result<int, ParseError> {
    if time_defined(s, now) {
        time_value(s, now)
    } else {
        Err(ParseError::Time)
    }
}

/// The time that `s` denotes given a reading of the clock (seconds since the
/// epoch, or how far before the epoch the clock was). The reading matters
/// only where `s` needs the clock.
pub open spec fn time_of(s: Seq<char>, clock: Result<u32, (u64, u32)>) -> Result<int, ParseError> {
    if uses_clock(s) {
        match clock {
            Ok(now) => time_result(s, now as int),
            Err((secs, nanos)) => Err(ParseError::SystemTimeError(secs, nanos)),
        }
    } else {
        time_result(s, 0)
    }
}

/// A `u32` result read as an integer result.
pub open spec fn widened(r: Result<u32, ParseError>) -> Result<int, ParseError> {
    match r {
        Ok(v) => Ok(v as int),
        Err(e) => Err(e),
    }
}

/// The time that `s` denotes given a reading of the clock.
pub fn time_parse_with(s: &str, clock: Result<u32, (u64, u32)>) -> (r: Result<u32, ParseError>)
    ensures
        widened(r) == time_of(s@, clock),
{
    if needs_clock(s) {
        match clock {
            Ok(now) => {
                if time_in_range(s, now) {
                    time_parse_at(s, now)
                } else {
                    Err(ParseError::Time)
                }
            },
            Err((secs, nanos)) => Err(ParseError::SystemTimeError(secs, nanos)),
        }
    } else {
        proof {
            assert(time_defined(s@, 0)) by {
                if is_relative(s@) {
                    assert(relative_unit(s@) is None);
                }
            }
        }
        time_parse_at(s, 0)
    }
}

/// The system clock in seconds since the epoch, cut to `u32` as the services
/// do, or how far before the epoch it was.
pub fn clock_reading() -> (r: Result<u32, (u64, u32)>)
    ensures
        r matches Err((_, nanos)) ==> nanos < 1_000_000_000,
{
    match since_epoch(system_now()) {
        Ok(secs) => Ok(secs as u32),
        Err(e) => Err(e),
    }
}

/// The time that `s` denotes, reading the clock when `s` is relative, `now`
/// or `yesterday`. A clock before the epoch gives `SystemTimeError`; a time
/// that would fall outside the range of `u32` gives `Time`.
pub fn time_parse(s: String) -> (r: Result<u32, ParseError>)
    ensures
        !uses_clock(s@) ==> widened(r) == time_of(s@, Ok(0)),
        exists|clock: Result<u32, (u64, u32)>| widened(r) == time_of(s@, clock),
{
    let clock = if needs_clock(s.as_str()) { clock_reading() } else { Ok(0) };
    time_parse_with(s.as_str(), clock)
}

/// The seconds of a unit of relative times: `s`, `min`, `h`, `d`, `w`,
/// `mon` (thirty days) and `y` (365 days).
pub open spec fn unit_seconds(unit: Seq<char>) -> Option<int> {
    if unit == seq!['s'] {
        Some(1)
    } else if unit == seq!['m', 'i', 'n'] {
        Some(60)
    } else if unit == seq!['h'] {
        Some(3600)
    } else if unit == seq!['d'] {
        Some(86400)
    } else if unit == seq!['w'] {
        Some(604800)
    } else if unit == seq!['m', 'o', 'n'] {
        Some(2592000)
    } else if unit == seq!['y'] {
        Some(31536000)
    } else {
        None
    }
}

/// `now` reads as the clock, and `yesterday` as one day before it (where the
/// clock is at least a day past the epoch; before that it is out of range).
pub proof fn lemma_now_and_yesterday(now: u32)
    ensures
        time_of(now_word(), Ok(now)) == Ok::<int, ParseError>(now as int),
        now >= 86400 ==> time_of(yesterday_word(), Ok(now)) == Ok::<int, ParseError>(now - 86400),
        now < 86400 ==> time_of(yesterday_word(), Ok(now)) == Err::<int, ParseError>(ParseError::Time),
{
    assert(now_word() != yesterday_word()) by {
        assert(now_word().len() != yesterday_word().len());
    }
}

/// A time written as a decimal number reads as that number, whatever the
/// clock says.
pub proof fn lemma_timestamp_reads_itself(t: u32, clock: Result<u32, (u64, u32)>)
    ensures
        time_of(decimal(t as nat), clock) == Ok::<int, ParseError>(t as int),
{
    let s = decimal(t as nat);
    lemma_decimal_digits(t as nat, u32::MAX as int);
    lemma_decimal_round_trip(t as nat);
    assert(s != now_word()) by {
        assert(now_word()[0] == 'n');
    }
    assert(s != yesterday_word()) by {
        assert(yesterday_word()[0] == 'y');
    }
    assert(!is_relative(s));
}

/// `-N` followed by a unit reads as `N` units before the clock, where that
/// is not before the epoch.
pub proof fn lemma_relative_time(n: u32, unit: Seq<char>, now: u32)
    requires
        unit_seconds(unit) is Some,
        n * unit_seconds(unit)->Some_0 <= now,
    ensures
        time_of(seq!['-'] + decimal(n as nat) + unit, Ok(now))
            == Ok::<int, ParseError>(now - n * unit_seconds(unit)->Some_0),
{
    let d = decimal(n as nat);
    let s = seq!['-'] + d + unit;
    lemma_decimal_round_trip(n as nat);
    lemma_decimal_digits(n as nat, u32::MAX as int);
    assert(s[0] == '-');
    assert(s.subrange(1, s.len() - unit.len()) =~= d);
    assert(s.last() == unit.last());
    if unit == seq!['m', 'i', 'n'] {
        assert(s.skip(s.len() - 3) =~= seq!['m', 'i', 'n']);
    }
    if unit == seq!['m', 'o', 'n'] {
        assert(s.skip(s.len() - 3) =~= seq!['m', 'o', 'n']);
        assert(!(s.skip(s.len() - 3) =~= seq!['m', 'i', 'n'])) by {
            assert(s.skip(s.len() - 3)[1] == 'o');
        }
    }
    assert(relative_unit(s) == Some((unit_seconds(unit)->Some_0, unit.len() as int)));
}

} // verus!
