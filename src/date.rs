//! Calendar dates: decoding the bracketed log timestamp and converting a
//! civil date and time to seconds since the Unix epoch.
use chrono::TimeZone;
use vstd::prelude::*;
use crate::text::{decimal_value, parse_decimal, split_by, split_chars};

verus! {

/// A civil date and time, in the order year, month, day, hour, minute, second.
#[derive(Clone, Copy, Debug, PartialEq, Eq, Structural)]
pub struct DateTime {
    pub year: u32,
    pub month: u32,
    pub day: u32,
    pub hour: u32,
    pub minute: u32,
    pub second: u32,
}

/// Oldest and newest year that the epoch conversion accepts.
pub const MIN_YEAR: i32 = -262143;

pub const MAX_YEAR: i32 = 262142;

pub open spec fn is_leap_year(y: int) -> bool {
    (y % 4 == 0 && y % 100 != 0) || y % 400 == 0
}

pub open spec fn days_in_month(y: int, m: int) -> int {
    if m == 2 {
        if is_leap_year(y) {
            29
        } else {
            28
        }
    } else if m == 4 || m == 6 || m == 9 || m == 11 {
        30
    } else {
        31
    }
}

/// A date and time that exists in the proleptic Gregorian calendar, with
/// whole seconds below 60 and a year within the supported range.
pub open spec fn civil_valid(y: int, m: int, d: int, h: int, mi: int, s: int) -> bool {
    &&& MIN_YEAR <= y <= MAX_YEAR
    &&& 1 <= m <= 12
    &&& 1 <= d <= days_in_month(y, m)
    &&& 0 <= h < 24
    &&& 0 <= mi < 60
    &&& 0 <= s < 60
}

/// Days from 1970-01-01 to the given proleptic Gregorian date.
pub open spec fn days_from_civil(y: int, m: int, d: int) -> int {
    let y0 = if m <= 2 {
        y - 1
    } else {
        y
    };
    let m0 = if m <= 2 {
        m + 9
    } else {
        m - 3
    };
    365 * y0 + y0 / 4 - y0 / 100 + y0 / 400 + (153 * m0 + 2) / 5 + d - 1 - 719468
}

/// Seconds since 1970-01-01T00:00:00 UTC, leap seconds not counted.
pub open spec fn civil_seconds(y: int, m: int, d: int, h: int, mi: int, s: int) -> int {
    days_from_civil(y, m, d) * 86400 + h * 3600 + mi * 60 + s
}

impl DateTime {
    pub open spec fn valid(self) -> bool {
        civil_valid(
            self.year as int,
            self.month as int,
            self.day as int,
            self.hour as int,
            self.minute as int,
            self.second as int,
        )
    }

    pub open spec fn seconds(self) -> int {
        civil_seconds(
            self.year as int,
            self.month as int,
            self.day as int,
            self.hour as int,
            self.minute as int,
            self.second as int,
        )
    }

    /// The six components, year first.
    pub open spec fn parts(self) -> Seq<u32> {
        seq![self.year, self.month, self.day, self.hour, self.minute, self.second]
    }

    /// The six components, year first.
    pub fn get_parsed_date(&self) -> (r: Vec<u32>)
        ensures
            r@ == self.parts(),
    {
        let r = vec![self.year, self.month, self.day, self.hour, self.minute, self.second];
        assert(r@ =~= self.parts());
        r
    }
}

/// Relies on chrono's `Utc.with_ymd_and_hms(..).single()` and `DateTime::timestamp`:
/// a valid UTC date and time (see `NaiveDate::from_ymd_opt`, `NaiveTime::from_hms_opt`
/// and chrono's year range) gives its count of non-leap seconds since the Unix epoch;
/// any other input gives nothing.
#[verifier::external_body]
fn utc_timestamp(year: i32, month: u32, day: u32, hour: u32, min: u32, sec: u32) -> (r: Option<
    i64,
>)
    ensures
        r is Some <==> civil_valid(
            year as int,
            month as int,
            day as int,
            hour as int,
            min as int,
            sec as int,
        ),
        r matches Some(t) ==> t == civil_seconds(
            year as int,
            month as int,
            day as int,
            hour as int,
            min as int,
            sec as int,
        ),
{
    match chrono::Utc.with_ymd_and_hms(year, month, day, hour, min, sec).single() {
        Some(dt) => Some(dt.timestamp()),
        None => None,
    }
}

/// The month number of a three-letter English month abbreviation.
pub open spec fn month_of(a: char, b: char, c: char) -> Option<u32> {
    if a == 'J' && b == 'a' && c == 'n' {
        Some(1)
    } else if a == 'F' && b == 'e' && c == 'b' {
        Some(2)
    } else if a == 'M' && b == 'a' && c == 'r' {
        Some(3)
    } else if a == 'A' && b == 'p' && c == 'r' {
        Some(4)
    } else if a == 'M' && b == 'a' && c == 'y' {
        Some(5)
    } else if a == 'J' && b == 'u' && c == 'n' {
        Some(6)
    } else if a == 'J' && b == 'u' && c == 'l' {
        Some(7)
    } else if a == 'A' && b == 'u' && c == 'g' {
        Some(8)
    } else if a == 'S' && b == 'e' && c == 'p' {
        Some(9)
    } else if a == 'O' && b == 'c' && c == 't' {
        Some(10)
    } else if a == 'N' && b == 'o' && c == 'v' {
        Some(11)
    } else if a == 'D' && b == 'e' && c == 'c' {
        Some(12)
    } else {
        None
    }
}

pub open spec fn month_number(s: Seq<char>) -> Option<u32> {
    if s.len() == 3 {
        month_of(s[0], s[1], s[2])
    } else {
        None
    }
}

fn month_from_name(s: &Vec<char>) -> (r: Option<u32>)
    ensures
        r == month_number(s@),
{
    if s.len() != 3 {
        return None;
    }
    let (a, b, c) = (s[0], s[1], s[2]);
    if a == 'J' && b == 'a' && c == 'n' {
        Some(1)
    } else if a == 'F' && b == 'e' && c == 'b' {
        Some(2)
    } else if a == 'M' && b == 'a' && c == 'r' {
        Some(3)
    } else if a == 'A' && b == 'p' && c == 'r' {
        Some(4)
    } else if a == 'M' && b == 'a' && c == 'y' {
        Some(5)
    } else if a == 'J' && b == 'u' && c == 'n' {
        Some(6)
    } else if a == 'J' && b == 'u' && c == 'l' {
        Some(7)
    } else if a == 'A' && b == 'u' && c == 'g' {
        Some(8)
    } else if a == 'S' && b == 'e' && c == 'p' {
        Some(9)
    } else if a == 'O' && b == 'c' && c == 't' {
        Some(10)
    } else if a == 'N' && b == 'o' && c == 'v' {
        Some(11)
    } else if a == 'D' && b == 'e' && c == 'c' {
        Some(12)
    } else {
        None
    }
}

/// `s` without its leading `[` characters.
pub open spec fn trim_open(s: Seq<char>) -> Seq<char>
    decreases s.len(),
{
    if s.len() > 0 && s[0] == '[' {
        trim_open(s.drop_first())
    } else {
        s
    }
}

/// A numeric piece of the timestamp: leading `[` dropped, then decimal digits that fit a `u32`.
pub open spec fn date_number(s: Seq<char>) -> Option<u32> {
    match decimal_value(trim_open(s)) {
        Some(v) => if v <= u32::MAX {
            Some(v as u32)
        } else {
            None
        },
        None => None,
    }
}

pub open spec fn time_separators() -> Seq<char> {
    seq!['/', ':', '%']
}

/// Reads `day/Mon/year:hour:minute:second%zone` (the zone is ignored; a
/// leading `[` is dropped) into its date and time components.
pub open spec fn decode_date(t: Seq<char>) -> Option<DateTime> {
    let p = split_by(t, time_separators());
    if p.len() != 7 {
        None
    } else {
        match (
            date_number(p[0]),
            month_number(p[1]),
            date_number(p[2]),
            date_number(p[3]),
            date_number(p[4]),
            date_number(p[5]),
        ) {
            (Some(d), Some(mo), Some(y), Some(h), Some(mi), Some(s)) => Some(
                DateTime { year: y, month: mo, day: d, hour: h, minute: mi, second: s },
            ),
            _ => None,
        }
    }
}

/// The date of a timestamp and its seconds since the epoch, where the
/// timestamp decodes to a date that exists.
pub open spec fn timestamp_of(t: Seq<char>) -> Option<(DateTime, int)> {
    match decode_date(t) {
        Some(dt) => if dt.valid() {
            Some((dt, dt.seconds()))
        } else {
            None
        },
        None => None,
    }
}

fn trimmed_number(s: &Vec<char>) -> (r: Option<u32>)
    ensures
        r == date_number(s@),
{
    let mut i: usize = 0;
    assert(s@.subrange(0, s.len() as int) =~= s@);
    while i < s.len() && s[i] == '['
        invariant
            i <= s.len(),
            trim_open(s@) == trim_open(s@.subrange(i as int, s.len() as int)),
        decreases s.len() - i,
    {
        assert(s@.subrange(i as int, s.len() as int).drop_first() =~= s@.subrange(
            i + 1,
            s.len() as int,
        ));
        i = i + 1;
    }
    let mut rest: Vec<char> = Vec::new();
    let mut k: usize = i;
    while k < s.len()
        invariant
            i <= k <= s.len(),
            rest@ =~= s@.subrange(i as int, k as int),
        decreases s.len() - k,
    {
        rest.push(s[k]);
        k = k + 1;
    }
    assert(trim_open(rest@) == rest@);
    match parse_decimal(&rest, 0xFFFF_FFFF) {
        Some(v) => Some(v as u32),
        None => None,
    }
}

/// Decodes a bracketed log timestamp into its date and its seconds since
/// the epoch; `None` where it is malformed or names no existing date.
pub fn parse_timestamp(t: &Vec<char>) -> (r: Option<(DateTime, i64)>)
    ensures
        r matches Some(p) ==> timestamp_of(t@) == Some((p.0, p.1 as int)),
        r is None ==> timestamp_of(t@) is None,
{
    let seps = vec!['/', ':', '%'];
    assert(seps@ =~= time_separators());
    let p = split_chars(t, &seps);
    if p.len() != 7 {
        return None;
    }
    let d = trimmed_number(&p[0]);
    let mo = month_from_name(&p[1]);
    let y = trimmed_number(&p[2]);
    let h = trimmed_number(&p[3]);
    let mi = trimmed_number(&p[4]);
    let s = trimmed_number(&p[5]);
    match (d, mo, y, h, mi, s) {
        (Some(d), Some(mo), Some(y), Some(h), Some(mi), Some(s)) => {
            let dt = DateTime { year: y, month: mo, day: d, hour: h, minute: mi, second: s };
            assert(decode_date(t@) == Some(dt));
            if y > 0x7FFF_FFFF {
                return None;
            }
            match utc_timestamp(y as i32, mo, d, h, mi, s) {
                Some(secs) => Some((dt, secs)),
                None => None,
            }
        },
        _ => None,
    }
}

} // verus!
