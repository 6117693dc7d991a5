//! The calendar range and day arithmetic on day numbers.
//!
//! A date is its day number in the proleptic Gregorian calendar, 0001-01-01
//! being day 1. The range is the one chrono's `NaiveDate` represents, from
//! -262143-01-01 to +262142-12-31.
use vstd::prelude::*;
use crate::text::decimal_padded;

verus! {

/// Day number of the first representable date, -262143-01-01.
pub const DATE_MIN_DAY: i32 = -95746129;

/// Day number of the last representable date, +262142-12-31.
pub const DATE_MAX_DAY: i32 = 95745399;

/// `d` is the day number of a representable date.
pub open spec fn day_in_range(d: int) -> bool {
    DATE_MIN_DAY <= d <= DATE_MAX_DAY
}

/// The date `days` days after `day` (before it for negative `days`), or
/// `None` when that date is not representable.
pub fn checked_add_days(day: i32, days: i64) -> (res: Option<i32>)
    ensures
        res == (if day_in_range(day + days) {
            Some((day + days) as i32)
        } else {
            None
        }),
{
    match (day as i64).checked_add(days) {
        Some(sum) => {
            if DATE_MIN_DAY as i64 <= sum && sum <= DATE_MAX_DAY as i64 {
                Some(sum as i32)
            } else {
                None
            }
        },
        None => None,
    }
}


/// First year of the calendar.
pub const MIN_YEAR: i32 = -262143;

/// Last year of the calendar.
pub const MAX_YEAR: i32 = 262142;

/// Leap years: multiples of 4, except multiples of 100 that are not
/// multiples of 400.
pub open spec fn is_leap_year(y: int) -> bool {
    y % 4 == 0 && (y % 100 != 0 || y % 400 == 0)
}

/// Days in month `m` of year `y`.
pub open spec fn days_in_month(y: int, m: int) -> int {
    if m == 2 {
        if is_leap_year(y) {
            29
        } else {
            28
        }
    } else if m == 4 || m == 6 || m == 9 || m == 11 {
        30
    } else {
        31
    }
}

/// `y-m-d` names a date of the calendar.
pub open spec fn is_valid_ymd(y: int, m: int, d: int) -> bool {
    MIN_YEAR <= y <= MAX_YEAR && 1 <= m <= 12 && 1 <= d <= days_in_month(y, m)
}

/// Days of year `y` before the first of month `m`.
pub open spec fn days_before_month(y: int, m: int) -> int {
    let common: int = if m <= 1 {
        0
    } else if m == 2 {
        31
    } else if m == 3 {
        59
    } else if m == 4 {
        90
    } else if m == 5 {
        120
    } else if m == 6 {
        151
    } else if m == 7 {
        181
    } else if m == 8 {
        212
    } else if m == 9 {
        243
    } else if m == 10 {
        273
    } else if m == 11 {
        304
    } else {
        334
    };
    common + if m > 2 && is_leap_year(y) {
        1int
    } else {
        0int
    }
}

/// The day number of `y-m-d`: days since the start of year 1, 0001-01-01
/// being day 1.
pub open spec fn civil_day(y: int, m: int, d: int) -> int {
    let p = y - 1;
    365 * p + p / 4 - p / 100 + p / 400 + days_before_month(y, m) + d
}

fn is_leap(y: i32) -> (res: bool)
    ensures
        res == is_leap_year(y as int),
{
    y % 4 == 0 && (y % 100 != 0 || y % 400 == 0)
}

fn month_length(y: i32, m: u32) -> (res: u32)
    ensures
        res == days_in_month(y as int, m as int),
{
    if m == 2 {
        if is_leap(y) {
            29
        } else {
            28
        }
    } else if m == 4 || m == 6 || m == 9 || m == 11 {
        30
    } else {
        31
    }
}

fn days_before(y: i32, m: u32) -> (res: i64)
    requires
        1 <= m <= 12,
    ensures
        res == days_before_month(y as int, m as int),
{
    let common: i64 = if m <= 1 {
        0
    } else if m == 2 {
        31
    } else if m == 3 {
        59
    } else if m == 4 {
        90
    } else if m == 5 {
        120
    } else if m == 6 {
        151
    } else if m == 7 {
        181
    } else if m == 8 {
        212
    } else if m == 9 {
        243
    } else if m == 10 {
        273
    } else if m == 11 {
        304
    } else {
        334
    };
    common + if m > 2 && is_leap(y) {
        1
    } else {
        0
    }
}

/// The day number of the date `y-m-d`, if there is such a date.
pub fn day_of_ymd(y: i32, m: u32, d: u32) -> (res: Option<i32>)
    ensures
        res == (if is_valid_ymd(y as int, m as int, d as int) {
            Some(civil_day(y as int, m as int, d as int) as i32)
        } else {
            None
        }),
{
    if y < MIN_YEAR || y > MAX_YEAR || m < 1 || m > 12 || d < 1 || d > month_length(y, m) {
        return None;
    }
    let p: i64 = y as i64 - 1;
    // Shifted by a multiple of 400 years so that the divisions below are
    // taken of a non-negative number.
    let q: i64 = p + 400_000;
    let by4: i64 = q / 4 - 100_000;
    let by100: i64 = q / 100 - 4_000;
    let by400: i64 = q / 400 - 1_000;
    assert(by4 == p / 4);
    assert(by100 == p / 100);
    assert(by400 == p / 400);
    let day: i64 = 365 * p + by4 - by100 + by400 + days_before(y, m) + d as i64;
    Some(day as i32)
}

/// The day number of a valid date.
pub(crate) fn ymd_day(y: i32, m: u32, d: u32) -> (res: i32)
    requires
        is_valid_ymd(y as int, m as int, d as int),
    ensures
        res == civil_day(y as int, m as int, d as int),
{
    day_of_ymd(y, m, d).unwrap()
}

/// A year as `%Y` writes it: four digits, zero-padded, for years 0 to 9999;
/// outside them a sign and at least four digits.
pub open spec fn year_text(y: int) -> Seq<char> {
    if 0 <= y <= 9999 {
        decimal_padded(y as nat, 4)
    } else if y < 0 {
        seq!['-'] + decimal_padded((-y) as nat, 4)
    } else {
        seq!['+'] + decimal_padded(y as nat, 4)
    }
}

/// `t` writes, as `YYYY-MM-DD`, the calendar date whose day number is `day`.
pub open spec fn is_date_text(t: Seq<char>, day: int) -> bool {
    exists|y: int, m: int, d: int|
        #![trigger civil_day(y, m, d)]
        is_valid_ymd(y, m, d) && civil_day(y, m, d) == day && t == ymd_text(y, m, d)
}

/// `y-m-d` written `YYYY-MM-DD`.
pub open spec fn ymd_text(y: int, m: int, d: int) -> Seq<char> {
    year_text(y) + seq!['-'] + decimal_padded(m as nat, 2) + seq!['-'] + decimal_padded(d as nat, 2)
}

/// `YYYY-MM-DD` for the date with day number `day` (chrono's
/// `NaiveDate::from_num_days_from_ce_opt`, then `format("%Y-%m-%d")`).
/// The day is required to be representable, where chrono answers a date.
#[verifier::external_body]
pub(crate) fn format_iso_date(day: i32) -> (res: String)
    requires
        day_in_range(day as int),
    ensures
        is_date_text(res@, day as int),
{
    match chrono::NaiveDate::from_num_days_from_ce_opt(day) {
        Some(date) => date.format("%Y-%m-%d").to_string(),
        None => String::new(),
    }
}

/// The day of the week of the date with day number `day`, numbered from
/// Monday as 0 to Sunday as 6: day 1, 0001-01-01, is a Monday.
pub open spec fn weekday_of_day(day: int) -> int {
    (day - 1) % 7
}

/// The weekday of day `day`, Monday 0 through Sunday 6.
pub fn weekday_from_monday(day: i32) -> (res: u32)
    ensures
        res as int == weekday_of_day(day as int),
{
    let r: i64 = (day as i64 - 1) % 7;
    if r < 0 {
        (r + 7) as u32
    } else {
        r as u32
    }
}

/// `d` is the day number of a representable date.
pub fn is_representable_day(d: i32) -> (res: bool)
    ensures
        res == day_in_range(d as int),
{
    DATE_MIN_DAY <= d && d <= DATE_MAX_DAY
}

/// Year, month and day of the date with day number `day` (chrono's
/// `NaiveDate::from_num_days_from_ce_opt`, then `Datelike::year`, `month`
/// and `day`): the one calendar date whose day number is `day`. The day is
/// required to be representable, where chrono answers a date.
#[verifier::external_body]
pub(crate) fn ymd_of_day(day: i32) -> (res: (i32, u32, u32))
    requires
        day_in_range(day as int),
    ensures
        is_valid_ymd(res.0 as int, res.1 as int, res.2 as int),
        civil_day(res.0 as int, res.1 as int, res.2 as int) == day,
{
    match chrono::NaiveDate::from_num_days_from_ce_opt(day) {
        Some(date) => (chrono::Datelike::year(&date), chrono::Datelike::month(&date), chrono::Datelike::day(&date)),
        None => (1, 1, 1),
    }
}

/// The day number chrono reads from `s` under the format `%Y-%m-%d`, if it
/// reads a date.
pub uninterp spec fn iso_text_day(s: Seq<char>) -> Option<int>;

/// The day number of the date `s` spells as `YYYY-MM-DD` (chrono's
/// `NaiveDate::parse_from_str(s, "%Y-%m-%d")`, read back with
/// `num_days_from_ce`), or `None` when chrono reads no date there. What
/// chrono accepts is left to the name; a date it answers is representable.
#[verifier::external_body]
pub(crate) fn parse_iso_day(s: &str) -> (res: Option<i32>)
    ensures
        match res {
            Some(d) => iso_text_day(s@) == Some(d as int) && day_in_range(d as int),
            None => iso_text_day(s@) is None,
        },
{
    match chrono::NaiveDate::parse_from_str(s, "%Y-%m-%d") {
        Ok(date) => Some(chrono::Datelike::num_days_from_ce(&date)),
        Err(_) => None,
    }
}

/// The day an optional `today` text names; no text, or text chrono does not
/// read as a `YYYY-MM-DD` date, names none.
pub fn parse_today(today_iso: Option<String>) -> (res: Option<i32>)
    ensures
        today_iso is None ==> res is None,
        today_iso matches Some(s) ==> match res {
            Some(d) => iso_text_day(s@) == Some(d as int) && day_in_range(d as int),
            None => iso_text_day(s@) is None,
        },
{
    match today_iso {
        Some(s) => parse_iso_day(s.as_str()),
        None => None,
    }
}

} // verus!
