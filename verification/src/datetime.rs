//! Calendar dates and times of day, held as plain fields.
//!
//! The catalog stores a capture date as one of these values; resolution and
//! ordering are defined here. Parsing accepts exactly the two layouts the
//! date-path rules may produce: `YYYY-MM-DD HH:MM:SS` and `YYYY-MM-DD`
//! (midnight implied), with fixed field widths and a valid calendar date.

use vstd::prelude::*;

verus! {

/// A calendar date with a time of day. `valid()` says the fields form a real
/// calendar moment (leap years included, seconds `0..=59`).
#[derive(Clone, Copy, Debug, PartialEq, Eq, Structural)]
pub struct DateTime {
    pub year: u16,
    pub month: u8,
    pub day: u8,
    pub hour: u8,
    pub minute: u8,
    pub second: u8,
}

pub open spec fn spec_is_leap_year(y: int) -> bool {
    (y % 4 == 0 && y % 100 != 0) || y % 400 == 0
}

pub open spec fn spec_days_in_month(y: int, m: int) -> int {
    if m == 2 {
        if spec_is_leap_year(y) {
            29
        } else {
            28
        }
    } else if m == 4 || m == 6 || m == 9 || m == 11 {
        30
    } else {
        31
    }
}

impl DateTime {
    pub open spec fn valid(self) -> bool {
        &&& 1 <= self.month <= 12
    &&& 1 <= self.day <= spec_days_in_month(self.year as int, self.month as int)
        &&& self.hour < 24
        &&& self.minute < 60
        &&& self.second < 60
    }

    /// Builds a value only when the fields form a real calendar moment.
    pub fn new(year: u16, month: u8, day: u8, hour: u8, minute: u8, second: u8) -> (r: Option<
        DateTime,
    >)
        ensures
            r == (if (DateTime { year, month, day, hour, minute, second }).valid() {
                Some(DateTime { year, month, day, hour, minute, second })
            } else {
                None::<DateTime>
            }),
    {
        let ok = 1 <= month && month <= 12 && 1 <= day && day <= days_in_month(year, month)
            && hour < 24 && minute < 60 && second < 60;
        if ok {
            Some(DateTime { year, month, day, hour, minute, second })
        } else {
            None
        }
    }
}

pub fn days_in_month(y: u16, m: u8) -> (r: u8)
    ensures
        r as int == spec_days_in_month(y as int, m as int),
{
    if m == 2 {
        if (y % 4 == 0 && y % 100 != 0) || y % 400 == 0 {
            29
        } else {
            28
        }
    } else if m == 4 || m == 6 || m == 9 || m == 11 {
        30
    } else {
        31
    }
}

/// Strict ordering on date-times: lexicographic over the fields, from years
/// down to seconds.
pub open spec fn spec_dt_lt(a: DateTime, b: DateTime) -> bool {
    if a.year != b.year {
        a.year < b.year
    } else if a.month != b.month {
        a.month < b.month
    } else if a.day != b.day {
        a.day < b.day
    } else if a.hour != b.hour {
        a.hour < b.hour
    } else if a.minute != b.minute {
        a.minute < b.minute
    } else {
        a.second < b.second
    }
}

pub fn dt_lt(a: &DateTime, b: &DateTime) -> (r: bool)
    ensures
        r == spec_dt_lt(*a, *b),
{
    if a.year != b.year {
        a.year < b.year
    } else if a.month != b.month {
        a.month < b.month
    } else if a.day != b.day {
        a.day < b.day
    } else if a.hour != b.hour {
        a.hour < b.hour
    } else if a.minute != b.minute {
        a.minute < b.minute
    } else {
        a.second < b.second
    }
}

pub open spec fn spec_is_digit(c: char) -> bool {
    '0' <= c && c <= '9'
}

pub open spec fn spec_digit_val(c: char) -> int {
    c as int - '0' as int
}

/// What a well-formed `YYYY-MM-DD` prefix at the start of `s` means.
pub open spec fn spec_date_shape(s: Seq<char>) -> bool {
    &&& s.len() >= 10
    &&& spec_is_digit(s[0]) && spec_is_digit(s[1]) && spec_is_digit(s[2]) && spec_is_digit(s[3])
    &&& s[4] == '-'
    &&& spec_is_digit(s[5]) && spec_is_digit(s[6])
    &&& s[7] == '-'
    &&& spec_is_digit(s[8]) && spec_is_digit(s[9])
}

pub open spec fn spec_time_shape(s: Seq<char>) -> bool {
    &&& s.len() == 19
    &&& s[10] == ' '
    &&& spec_is_digit(s[11]) && spec_is_digit(s[12])
    &&& s[13] == ':'
    &&& spec_is_digit(s[14]) && spec_is_digit(s[15])
    &&& s[16] == ':'
    &&& spec_is_digit(s[17]) && spec_is_digit(s[18])
}

pub open spec fn spec_year_of(s: Seq<char>) -> int {
    spec_digit_val(s[0]) * 1000 + spec_digit_val(s[1]) * 100 + spec_digit_val(s[2]) * 10
        + spec_digit_val(s[3])
}

pub open spec fn spec_two_digits(s: Seq<char>, i: int) -> int {
    spec_digit_val(s[i]) * 10 + spec_digit_val(s[i + 1])
}

/// The fields a shaped string denotes, before calendar validation.
pub open spec fn spec_fields_of(s: Seq<char>) -> DateTime {
    DateTime {
        year: spec_year_of(s) as u16,
        month: spec_two_digits(s, 5) as u8,
        day: spec_two_digits(s, 8) as u8,
        hour: if s.len() == 19 {
            spec_two_digits(s, 11) as u8
        } else {
            0
        },
        minute: if s.len() == 19 {
            spec_two_digits(s, 14) as u8
        } else {
            0
        },
        second: if s.len() == 19 {
            spec_two_digits(s, 17) as u8
        } else {
            0
        },
    }
}

/// Parsing `YYYY-MM-DD HH:MM:SS`: the string must have exactly that shape and
/// denote a real calendar moment.
pub open spec fn spec_parse_ymd_hms(s: Seq<char>) -> Option<DateTime> {
    if s.len() == 19 && spec_date_shape(s) && spec_time_shape(s) && spec_fields_of(s).valid() {
        Some(spec_fields_of(s))
    } else {
        None
    }
}

/// Parsing `YYYY-MM-DD`: midnight implied.
pub open spec fn spec_parse_ymd(s: Seq<char>) -> Option<DateTime> {
    if s.len() == 10 && spec_date_shape(s) && spec_fields_of(s).valid() {
        Some(spec_fields_of(s))
    } else {
        None
    }
}

/// The two layouts in fall-back order, as the date-path rules use them.
pub open spec fn spec_parse_datetime(s: Seq<char>) -> Option<DateTime> {
    if spec_parse_ymd_hms(s) is Some {
        spec_parse_ymd_hms(s)
    } else {
        spec_parse_ymd(s)
    }
}

fn is_digit(c: char) -> (r: bool)
    ensures
        r == spec_is_digit(c),
{
    '0' <= c && c <= '9'
}

fn digit_val(c: char) -> (r: u32)
    requires
        spec_is_digit(c),
    ensures
        r as int == spec_digit_val(c),
{
    c as u32 - 48
}

fn date_shape(s: &str) -> (r: bool)
    ensures
        r == spec_date_shape(s@),
{
    let n = s.unicode_len();
    if n < 10 {
        return false;
    }
    is_digit(s.get_char(0)) && is_digit(s.get_char(1)) && is_digit(s.get_char(2)) && is_digit(
        s.get_char(3),
    ) && s.get_char(4) == '-' && is_digit(s.get_char(5)) && is_digit(s.get_char(6)) && s.get_char(7)
        == '-' && is_digit(s.get_char(8)) && is_digit(s.get_char(9))
}

fn time_shape(s: &str) -> (r: bool)
    ensures
        r == spec_time_shape(s@),
{
    let n = s.unicode_len();
    if n != 19 {
        return false;
    }
    s.get_char(10) == ' ' && is_digit(s.get_char(11)) && is_digit(s.get_char(12)) && s.get_char(13)
        == ':' && is_digit(s.get_char(14)) && is_digit(s.get_char(15)) && s.get_char(16) == ':'
        && is_digit(s.get_char(17)) && is_digit(s.get_char(18))
}

fn two_digits(s: &str, i: usize) -> (r: u32)
    requires
        i < usize::MAX,
        i + 1 < s@.len(),
        spec_is_digit(s@[i as int]),
        spec_is_digit(s@[i as int + 1]),
    ensures
        r as int == spec_two_digits(s@, i as int),
{
    digit_val(s.get_char(i)) * 10 + digit_val(s.get_char(i + 1))
}

/// Parses a date-path expansion: first as `YYYY-MM-DD HH:MM:SS`, then as
/// `YYYY-MM-DD` with midnight implied; `None` when neither layout fits or the
/// fields do not form a real calendar moment.
pub fn parse_datetime(s: &str) -> (r: Option<DateTime>)
    ensures
        r == spec_parse_datetime(s@),
{
    let n = s.unicode_len();
    if !date_shape(s) {
        return None;
    }
    let year32 = digit_val(s.get_char(0)) * 1000 + digit_val(s.get_char(1)) * 100 + digit_val(
        s.get_char(2),
    ) * 10 + digit_val(s.get_char(3));
    let year = year32 as u16;
    let month = two_digits(s, 5) as u8;
    let day = two_digits(s, 8) as u8;
    if n == 19 && time_shape(s) {
        let hour = two_digits(s, 11) as u8;
        let minute = two_digits(s, 14) as u8;
        let second = two_digits(s, 17) as u8;
        DateTime::new(year, month, day, hour, minute, second)
    } else if n == 10 {
        DateTime::new(year, month, day, 0, 0, 0)
    } else {
        None
    }
}

} // verus!
