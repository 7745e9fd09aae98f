//! The reference instant: parsing a `YYYY-MM-DD HH:MM` date string
//! (interpreted as UTC) into Unix seconds, with fallback to the current
//! instant when the argument is absent or malformed.
//!
//! The proleptic Gregorian calendar arithmetic is verified against a
//! direct recursive model of day counting from the Unix epoch.

use vstd::prelude::*;
use vstd::string::StrSliceExecFns;
use crate::zones::{now_secs, repr_secs, tz_safe};

verus! {

/// Gregorian leap-year rule.
pub open spec fn is_leap(y: int) -> bool {
    y % 4 == 0 && (y % 100 != 0 || y % 400 == 0)
}

/// Number of days in year `y`.
pub open spec fn year_len(y: int) -> int {
    if is_leap(y) {
        366
    } else {
        365
    }
}

/// Number of days in month `m` of year `y`.
pub open spec fn days_in_month(y: int, m: int) -> int {
    if m == 2 {
        if is_leap(y) {
            29
        } else {
            28
        }
    } else if m == 4 || m == 6 || m == 9 || m == 11 {
        30
    } else {
        31
    }
}

/// Days from 1970-01-01 to the first day of year `y` (negative for years
/// before 1970): the direct day-counting model.
pub open spec fn days_to_year(y: int) -> int
    decreases (if y >= 1970 {
        y - 1970
    } else {
        1970 - y
    }),
{
    if y == 1970 {
        0
    } else if y > 1970 {
        days_to_year(y - 1) + year_len(y - 1)
    } else {
        days_to_year(y + 1) - year_len(y)
    }
}

/// Days from the first day of year `y` to the first day of its month `m`.
pub open spec fn days_before_month(y: int, m: int) -> int
    decreases m,
{
    if m <= 1 {
        0
    } else {
        days_before_month(y, m - 1) + days_in_month(y, m - 1)
    }
}

/// Days from 1970-01-01 to the civil date `y-m-d`.
pub open spec fn civil_days(y: int, m: int, d: int) -> int {
    days_to_year(y) + days_before_month(y, m) + (d - 1)
}

/// Unix seconds of the civil UTC datetime `y-m-d h:mi`.
pub open spec fn civil_secs(y: int, m: int, d: int, h: int, mi: int) -> int {
    civil_days(y, m, d) * 86400 + h * 3600 + mi * 60
}

/// A civil datetime the date grammar accepts: a four-digit year, a real
/// month and day of that year, and a time of day.
pub open spec fn valid_civil(y: int, m: int, d: int, h: int, mi: int) -> bool {
    &&& 0 <= y <= 9999
    &&& 1 <= m <= 12
    &&& 1 <= d <= days_in_month(y, m)
    &&& 0 <= h < 24
    &&& 0 <= mi < 60
}

pub open spec fn is_digit(c: char) -> bool {
    48 <= c as int <= 57
}

pub open spec fn digit_val(c: char) -> int {
    c as int - 48
}

/// The two-digit number at positions `i`, `i + 1` of `s`.
pub open spec fn num2(s: Seq<char>, i: int) -> int {
    digit_val(s[i]) * 10 + digit_val(s[i + 1])
}

pub open spec fn year_of(s: Seq<char>) -> int {
    digit_val(s[0]) * 1000 + digit_val(s[1]) * 100 + digit_val(s[2]) * 10 + digit_val(s[3])
}

pub open spec fn month_of(s: Seq<char>) -> int {
    num2(s, 5)
}

pub open spec fn dom_of(s: Seq<char>) -> int {
    num2(s, 8)
}

pub open spec fn hour_of(s: Seq<char>) -> int {
    num2(s, 11)
}

pub open spec fn minute_of(s: Seq<char>) -> int {
    num2(s, 14)
}

/// The shape `YYYY-MM-DD HH:MM`: sixteen characters, digits and the three
/// fixed separators in their places.
pub open spec fn date_layout_ok(s: Seq<char>) -> bool {
    &&& s.len() == 16
    &&& is_digit(s[0]) && is_digit(s[1]) && is_digit(s[2]) && is_digit(s[3])
    &&& s[4] == '-'
    &&& is_digit(s[5]) && is_digit(s[6])
    &&& s[7] == '-'
    &&& is_digit(s[8]) && is_digit(s[9])
    &&& s[10] == ' '
    &&& is_digit(s[11]) && is_digit(s[12])
    &&& s[13] == ':'
    &&& is_digit(s[14]) && is_digit(s[15])
}

/// A well-formed date argument: the fixed layout, naming a real civil
/// datetime.
pub open spec fn date_str_ok(s: Seq<char>) -> bool {
    date_layout_ok(s) && valid_civil(year_of(s), month_of(s), dom_of(s), hour_of(s), minute_of(s))
}

/// The instant a well-formed date argument names, in Unix seconds.
pub open spec fn date_secs_of(s: Seq<char>) -> int {
    civil_secs(year_of(s), month_of(s), dom_of(s), hour_of(s), minute_of(s))
}

fn is_leap_exec(y: u32) -> (r: bool)
    ensures
        r == is_leap(y as int),
{
    y % 4 == 0 && (y % 100 != 0 || y % 400 == 0)
}

fn year_len_exec(y: u32) -> (r: u32)
    ensures
        r as int == year_len(y as int),
        365 <= r <= 366,
{
    if is_leap_exec(y) {
        366
    } else {
        365
    }
}

fn days_in_month_exec(y: u32, m: u32) -> (r: u32)
    requires
        1 <= m <= 12,
    ensures
        r as int == days_in_month(y as int, m as int),
        28 <= r <= 31,
{
    if m == 2 {
        if is_leap_exec(y) {
            29
        } else {
            28
        }
    } else if m == 4 || m == 6 || m == 9 || m == 11 {
        30
    } else {
        31
    }
}

/// Unix seconds of a civil UTC datetime, by counting years and months from
/// the epoch.
pub fn civil_to_secs(y: u32, mo: u32, d: u32, h: u32, mi: u32) -> (r: i64)
    requires
        valid_civil(y as int, mo as int, d as int, h as int, mi as int),
    ensures
        r as int == civil_secs(y as int, mo as int, d as int, h as int, mi as int),
        -63_000_000_000 <= r <= 254_000_000_000,
{
    let mut days: i64 = 0;
    if y >= 1970 {
        let mut yr: u32 = 1970;
        while yr < y
            invariant
                1970 <= yr <= y,
                y <= 9999,
                days == days_to_year(yr as int),
                0 <= days <= 366 * (yr - 1970),
            decreases y - yr,
        {
            days = days + year_len_exec(yr) as i64;
            yr = yr + 1;
        }
    } else {
        let mut yr: u32 = 1970;
        while yr > y
            invariant
                y <= yr <= 1970,
                days == days_to_year(yr as int),
                -366 * (1970 - yr) <= days <= 0,
            decreases yr,
        {
            yr = yr - 1;
            days = days - year_len_exec(yr) as i64;
        }
    }
    let mut mm: u32 = 1;
    while mm < mo
        invariant
            1 <= mm <= mo <= 12,
            days == days_to_year(y as int) + days_before_month(y as int, mm as int),
            -721_020 <= days <= 2_938_614 + 31 * (mm - 1),
        decreases mo - mm,
    {
        days = days + days_in_month_exec(y, mm) as i64;
        mm = mm + 1;
    }
    days = days + (d - 1) as i64;
    days * 86400 + (h as i64) * 3600 + (mi as i64) * 60
}

fn char_digit(c: char) -> (r: Option<u32>)
    ensures
        r is Some <==> is_digit(c),
        r matches Some(v) ==> v as int == digit_val(c) && v <= 9,
{
    let x = c as u32;
    if 48 <= x && x <= 57 {
        Some(x - 48)
    } else {
        None
    }
}

/// Parses a `YYYY-MM-DD HH:MM` date string as a UTC instant. Returns the
/// instant exactly when the string is well formed, and nothing otherwise.
pub fn parse_date_str(s: &str) -> (r: Option<i64>)
    ensures
        r is Some <==> date_str_ok(s@),
        r matches Some(v) ==> v as int == date_secs_of(s@) && tz_safe(v as int),
{
    if s.unicode_len() != 16 {
        return None;
    }
    if !(s.get_char(4) == '-' && s.get_char(7) == '-' && s.get_char(10) == ' ' && s.get_char(13)
        == ':') {
        return None;
    }
    let y0 = match char_digit(s.get_char(0)) {
        Some(v) => v,
        None => {
            return None;
        },
    };
    let y1 = match char_digit(s.get_char(1)) {
        Some(v) => v,
        None => {
            return None;
        },
    };
    let y2 = match char_digit(s.get_char(2)) {
        Some(v) => v,
        None => {
            return None;
        },
    };
    let y3 = match char_digit(s.get_char(3)) {
        Some(v) => v,
        None => {
            return None;
        },
    };
    let m0 = match char_digit(s.get_char(5)) {
        Some(v) => v,
        None => {
            return None;
        },
    };
    let m1 = match char_digit(s.get_char(6)) {
        Some(v) => v,
        None => {
            return None;
        },
    };
    let d0 = match char_digit(s.get_char(8)) {
        Some(v) => v,
        None => {
            return None;
        },
    };
    let d1 = match char_digit(s.get_char(9)) {
        Some(v) => v,
        None => {
            return None;
        },
    };
    let h0 = match char_digit(s.get_char(11)) {
        Some(v) => v,
        None => {
            return None;
        },
    };
    let h1 = match char_digit(s.get_char(12)) {
        Some(v) => v,
        None => {
            return None;
        },
    };
    let n0 = match char_digit(s.get_char(14)) {
        Some(v) => v,
        None => {
            return None;
        },
    };
    let n1 = match char_digit(s.get_char(15)) {
        Some(v) => v,
        None => {
            return None;
        },
    };
    let y = y0 * 1000 + y1 * 100 + y2 * 10 + y3;
    let mo = m0 * 10 + m1;
    let d = d0 * 10 + d1;
    let h = h0 * 10 + h1;
    let mi = n0 * 10 + n1;
    if mo < 1 || mo > 12 {
        return None;
    }
    if d < 1 || d > days_in_month_exec(y, mo) {
        return None;
    }
    if h > 23 || mi > 59 {
        return None;
    }
    Some(civil_to_secs(y, mo, d, h, mi))
}

/// Resolves the optional date argument to a reference instant. A
/// well-formed argument names the instant itself; a malformed one falls
/// back to the current instant, which the second component of the result
/// flags so the caller can report it; an absent one is the current
/// instant, unflagged.
pub fn get_utc_date(cmdline_date: Option<String>) -> (r: (i64, bool))
    ensures
        repr_secs(r.0 as int),
        r.1 == (cmdline_date matches Some(d) && !date_str_ok(d@)),
        cmdline_date matches Some(d) ==> (date_str_ok(d@) ==> r.0 as int == date_secs_of(d@)
            && tz_safe(r.0 as int)),
{
    match cmdline_date {
        Some(d) => match parse_date_str(d.as_str()) {
            Some(v) => (v, false),
            None => (now_secs(), true),
        },
        None => (now_secs(), false),
    }
}

} // verus!
