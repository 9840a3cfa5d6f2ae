//! Calendar and clock arithmetic: dates, times of day, and epoch-second
//! instants, with verified conversions between them.

use vstd::prelude::*;
use vstd::arithmetic::div_mod::{
    lemma_div_is_ordered, lemma_fundamental_div_mod, lemma_fundamental_div_mod_converse,
    lemma_mod_bound,
};
use crate::errors::ParseError;
use crate::text::{digit_val, is_digit, str_to_chars};

verus! {

/// Seconds at the last supported instant, 9999-12-31T23:59:59 UTC, counted
/// from 1970-01-01T00:00:00 UTC.
pub const MAX_EPOCH_SECS: i64 = 253402300799;

/// Day number of 9999-12-31, counted from 1970-01-01.
pub const MAX_DAY_NUMBER: i64 = 2932896;

/// Whether `y` is a leap year in the proleptic Gregorian calendar.
pub open spec fn is_leap_year(y: int) -> bool {
    (y % 4 == 0 && y % 100 != 0) || y % 400 == 0
}

/// The number of days in month `m` of year `y`.
pub open spec fn spec_days_in_month(y: int, m: int) -> int {
    if m == 2 {
        if is_leap_year(y) {
            29
        } else {
            28
        }
    } else if m == 4 || m == 6 || m == 9 || m == 11 {
        30
    } else {
        31
    }
}

/// Whether year, month and day form a calendar date the library supports.
pub open spec fn valid_date(y: int, m: int, d: int) -> bool {
    1 <= y <= 9999 && 1 <= m <= 12 && 1 <= d <= spec_days_in_month(y, m)
}

/// The number of leap days in years 1 through `y`.
pub open spec fn leap_count(y: int) -> int {
    y / 4 - y / 100 + y / 400
}

/// The number of days in years 1 through `y`.
pub open spec fn year_days(y: int) -> int {
    y * 365 + leap_count(y)
}

/// Days from the first of March to the first of month `m`, counting within a
/// year that is shifted to begin in March (so January and February fall at the
/// end of the previous shifted year).
pub open spec fn month_offset(m: int) -> int {
    if m == 1 {
        306
    } else if m == 2 {
        337
    } else if m == 3 {
        0
    } else if m == 4 {
        31
    } else if m == 5 {
        61
    } else if m == 6 {
        92
    } else if m == 7 {
        122
    } else if m == 8 {
        153
    } else if m == 9 {
        184
    } else if m == 10 {
        214
    } else if m == 11 {
        245
    } else {
        275
    }
}

/// The day number of a calendar date: days since 1970-01-01.
pub open spec fn day_number(y: int, m: int, d: int) -> int {
    let sy = if m <= 2 {
        y - 1
    } else {
        y
    };
    year_days(sy) + month_offset(m) + (d - 1) - 719468
}

/// The instant, in seconds since the epoch, of a date and a time of day.
pub open spec fn epoch_of(y: int, m: int, d: int, h: int, mi: int, s: int) -> int {
    day_number(y, m, d) * 86400 + h * 3600 + mi * 60 + s
}

/// Stepping the dividend down by one steps the quotient down exactly at
/// multiples of the divisor.
proof fn lemma_div_step(y: int, k: int)
    requires
        y >= 1,
        k >= 1,
    ensures
        y / k - (y - 1) / k == if y % k == 0 {
            1int
        } else {
            0int
        },
{
    let q = y / k;
    let r = y % k;
    lemma_fundamental_div_mod(y, k);
    lemma_mod_bound(y, k);
    if r == 0 {
        assert(y - 1 == (q - 1) * k + (k - 1)) by (nonlinear_arith)
            requires
                y == k * q,
        ;
        lemma_fundamental_div_mod_converse(y - 1, k, q - 1, k - 1);
    } else {
        lemma_fundamental_div_mod_converse(y - 1, k, q, r - 1);
    }
}

/// One year of days: 366 across a leap year, 365 otherwise.
pub proof fn lemma_year_days_step(y: int)
    requires
        y >= 1,
    ensures
        year_days(y) - year_days(y - 1) == if is_leap_year(y) {
            366int
        } else {
            365int
        },
{
    lemma_div_step(y, 4);
    lemma_div_step(y, 100);
    lemma_div_step(y, 400);
    if y % 400 == 0 {
        // A year divisible by 400 is divisible by 100 and by 4.
        lemma_fundamental_div_mod(y, 400);
        lemma_fundamental_div_mod_converse(y, 100, 4 * (y / 400), 0);
        lemma_fundamental_div_mod_converse(y, 4, 100 * (y / 400), 0);
    } else if y % 100 == 0 {
        lemma_fundamental_div_mod(y, 100);
        lemma_fundamental_div_mod_converse(y, 4, 25 * (y / 100), 0);
    }
}

/// The first of the next month lies exactly one month of days further on.
pub proof fn lemma_month_step(y: int, m: int)
    requires
        1 <= y <= 9999,
        1 <= m <= 12,
    ensures
        day_number(y, m, 1) + spec_days_in_month(y, m) == if m < 12 {
            day_number(y, m + 1, 1)
        } else {
            day_number(y + 1, 1, 1)
        },
{
    if m == 2 {
        lemma_year_days_step(y);
    }
}

/// Every supported calendar date lies between the day numbers of 0001-01-01
/// and 9999-12-31.
pub proof fn lemma_day_number_bounds(y: int, m: int, d: int)
    requires
        valid_date(y, m, d),
    ensures
        -719567 <= day_number(y, m, d) <= MAX_DAY_NUMBER as int,
{
    let sy = if m <= 2 {
        y - 1
    } else {
        y
    };
    lemma_div_is_ordered(0, sy, 4);
    lemma_div_is_ordered(0, sy, 100);
    lemma_div_is_ordered(0, sy, 400);
    lemma_div_is_ordered(sy, 9999, 4);
    lemma_div_is_ordered(sy, 9999, 100);
    lemma_div_is_ordered(sy, 9999, 400);
    if m <= 2 {
        // The shifted year is at most 9998 and the month offset at most 337.
        lemma_div_is_ordered(sy, 9998, 4);
        lemma_div_is_ordered(sy, 9998, 400);
    } else if y <= 9998 {
        lemma_div_is_ordered(sy, 9998, 4);
        lemma_div_is_ordered(sy, 9998, 400);
    } else {
        // December 9999 reaches the bound exactly.
        assert(year_days(9999) == 3652059);
    }
}

/// A calendar date in the supported range (years 1 through 9999).
#[derive(Debug, PartialEq, Clone, Copy)]
pub struct Date {
    year: i64,
    month: i64,
    day: i64,
}

impl Date {
    pub closed spec fn y(&self) -> int {
        self.year as int
    }

    pub closed spec fn m(&self) -> int {
        self.month as int
    }

    pub closed spec fn d(&self) -> int {
        self.day as int
    }

    pub open spec fn wf(&self) -> bool {
        valid_date(self.y(), self.m(), self.d())
    }

    /// The day number this date stands for.
    pub open spec fn spec_day_number(&self) -> int {
        day_number(self.y(), self.m(), self.d())
    }

    /// Builds a date, rejecting anything that is not a supported calendar
    /// date.
    pub fn from_ymd(year: i64, month: i64, day: i64) -> (r: Result<Date, ParseError>)
        ensures
            valid_date(year as int, month as int, day as int) ==> (r matches Ok(date)
                && date.y() == year && date.m() == month && date.d() == day && date.wf()),
            !valid_date(year as int, month as int, day as int) ==> r === Err(
                ParseError::InvalidValue,
            ),
    {
        if 1 <= year && year <= 9999 && 1 <= month && month <= 12 && 1 <= day && day
            <= days_in_month(year, month) {
            Ok(Date { year, month, day })
        } else {
            Err(ParseError::InvalidValue)
        }
    }

    pub fn year(&self) -> (r: i64)
        ensures
            r == self.y(),
    {
        self.year
    }

    pub fn month(&self) -> (r: i64)
        ensures
            r == self.m(),
    {
        self.month
    }

    pub fn day(&self) -> (r: i64)
        ensures
            r == self.d(),
    {
        self.day
    }

    /// Days since 1970-01-01 (negative before that day).
    pub fn to_day_number(&self) -> (r: i64)
        requires
            self.wf(),
        ensures
            r == self.spec_day_number(),
    {
        let sy: i64 = if self.month <= 2 {
            self.year - 1
        } else {
            self.year
        };
        let yd: i64 = sy * 365 + sy / 4 - sy / 100 + sy / 400;
        let mo: i64 = month_offset_table(self.month);
        yd + mo + (self.day - 1) - 719468
    }
}

/// The earliest date a range filter can name; the default lower bound.
pub fn date_min() -> (r: Date)
    ensures
        r.wf(),
        r.spec_day_number() == 0,
        r.y() == 1970 && r.m() == 1 && r.d() == 1,
{
    Date { year: 1970, month: 1, day: 1 }
}

/// The latest date a range filter can name; the default upper bound.
pub fn date_max() -> (r: Date)
    ensures
        r.wf(),
        r.spec_day_number() == MAX_DAY_NUMBER as int,
        r.y() == 9999 && r.m() == 12 && r.d() == 31,
{
    Date { year: 9999, month: 12, day: 31 }
}

/// Whether `y` is a leap year.
pub fn leap_year(y: i64) -> (r: bool)
    ensures
        r == is_leap_year(y as int),
{
    (y % 4 == 0 && y % 100 != 0) || y % 400 == 0
}

/// The number of days in month `m` of year `y`.
pub fn days_in_month(y: i64, m: i64) -> (r: i64)
    ensures
        r == spec_days_in_month(y as int, m as int),
{
    if m == 2 {
        if leap_year(y) {
            29
        } else {
            28
        }
    } else if m == 4 || m == 6 || m == 9 || m == 11 {
        30
    } else {
        31
    }
}

fn month_offset_table(m: i64) -> (r: i64)
    requires
        1 <= m <= 12,
    ensures
        r == month_offset(m as int),
{
    match m {
        1 => 306,
        2 => 337,
        3 => 0,
        4 => 31,
        5 => 61,
        6 => 92,
        7 => 122,
        8 => 153,
        9 => 184,
        10 => 214,
        11 => 245,
        _ => 275,
    }
}

/// Day number of January first of year `y` (years 1 through 10000).
fn days_at_jan1(y: i64) -> (r: i64)
    requires
        1 <= y <= 10000,
    ensures
        r == day_number(y as int, 1, 1),
{
    let sy: i64 = y - 1;
    sy * 365 + sy / 4 - sy / 100 + sy / 400 + 306 - 719468
}

/// A time of day with second precision.
#[derive(Debug, PartialEq, Clone, Copy)]
pub struct ClockTime {
    hour: i64,
    minute: i64,
    second: i64,
}

impl ClockTime {
    pub closed spec fn h(&self) -> int {
        self.hour as int
    }

    pub closed spec fn mi(&self) -> int {
        self.minute as int
    }

    pub closed spec fn s(&self) -> int {
        self.second as int
    }

    pub open spec fn wf(&self) -> bool {
        0 <= self.h() < 24 && 0 <= self.mi() < 60 && 0 <= self.s() < 60
    }

    /// Builds a time of day, rejecting out-of-range components.
    pub fn from_hms(hour: i64, minute: i64, second: i64) -> (r: Result<ClockTime, ParseError>)
        ensures
            (0 <= hour < 24 && 0 <= minute < 60 && 0 <= second < 60) ==> (r matches Ok(t)
                && t.h() == hour && t.mi() == minute && t.s() == second && t.wf()),
            !(0 <= hour < 24 && 0 <= minute < 60 && 0 <= second < 60) ==> r === Err(
                ParseError::InvalidValue,
            ),
    {
        if 0 <= hour && hour < 24 && 0 <= minute && minute < 60 && 0 <= second && second < 60 {
            Ok(ClockTime { hour, minute, second })
        } else {
            Err(ParseError::InvalidValue)
        }
    }

    pub fn hour(&self) -> (r: i64)
        ensures
            r == self.h(),
    {
        self.hour
    }

    pub fn minute(&self) -> (r: i64)
        ensures
            r == self.mi(),
    {
        self.minute
    }

    pub fn second(&self) -> (r: i64)
        ensures
            r == self.s(),
    {
        self.second
    }
}

/// An absolute UTC instant with second precision, between 1970-01-01 and the
/// end of year 9999.
#[derive(Debug, PartialEq, Clone, Copy)]
pub struct Timestamp {
    secs: i64,
}

impl View for Timestamp {
    type V = int;

    closed spec fn view(&self) -> int {
        self.secs as int
    }
}

impl Timestamp {
    pub open spec fn wf(&self) -> bool {
        0 <= self@ <= MAX_EPOCH_SECS as int
    }

    /// Builds an instant from seconds since the epoch, rejecting instants
    /// outside the supported range.
    pub fn from_secs(secs: i64) -> (r: Result<Timestamp, ParseError>)
        ensures
            (0 <= secs <= MAX_EPOCH_SECS) ==> (r matches Ok(t) && t@ == secs && t.wf()),
            !(0 <= secs <= MAX_EPOCH_SECS) ==> r === Err(ParseError::InvalidValue),
    {
        if 0 <= secs && secs <= MAX_EPOCH_SECS {
            Ok(Timestamp { secs })
        } else {
            Err(ParseError::InvalidValue)
        }
    }

    pub fn secs(&self) -> (r: i64)
        ensures
            r == self@,
    {
        self.secs
    }

    /// The day number of the calendar day this instant falls on.
    pub open spec fn spec_day(&self) -> int {
        self@ / 86400
    }

    pub fn day(&self) -> (r: i64)
        requires
            self.wf(),
        ensures
            r == self.spec_day(),
            0 <= r <= MAX_DAY_NUMBER,
    {
        self.secs / 86400
    }

    /// The instant of a date and a time of day.
    pub fn from_fields(date: &Date, time: &ClockTime) -> (r: Result<Timestamp, ParseError>)
        requires
            date.wf(),
            time.wf(),
        ensures
            (0 <= epoch_of(date.y(), date.m(), date.d(), time.h(), time.mi(), time.s())
                <= MAX_EPOCH_SECS as int) ==> (r matches Ok(t) && t@ == epoch_of(
                date.y(),
                date.m(),
                date.d(),
                time.h(),
                time.mi(),
                time.s(),
            ) && t.wf()),
            !(0 <= epoch_of(date.y(), date.m(), date.d(), time.h(), time.mi(), time.s())
                <= MAX_EPOCH_SECS as int) ==> r === Err(ParseError::InvalidValue),
    {
        proof {
            lemma_day_number_bounds(date.y(), date.m(), date.d());
        }
        let day = date.to_day_number();
        let secs = day * 86400 + time.hour() * 3600 + time.minute() * 60 + time.second();
        Timestamp::from_secs(secs)
    }

    /// Splits this instant into its calendar date and time of day.
    pub fn to_fields(&self) -> (r: (Date, ClockTime))
        requires
            self.wf(),
        ensures
            r.0.wf(),
            r.1.wf(),
            1970 <= r.0.y(),
            epoch_of(r.0.y(), r.0.m(), r.0.d(), r.1.h(), r.1.mi(), r.1.s()) == self@,
            r.0.spec_day_number() == self.spec_day(),
    {
        let day = self.day();
        let rem = self.secs % 86400;
        assert(self.secs == day * 86400 + rem && 0 <= rem < 86400) by {
            lemma_fundamental_div_mod(self.secs as int, 86400);
        };
        let hour = rem / 3600;
        let hrem = rem % 3600;
        assert(rem == hour * 3600 + hrem && 0 <= hrem < 3600 && hour < 24) by {
            lemma_fundamental_div_mod(rem as int, 3600);
        };
        let minute = hrem / 60;
        let second = hrem % 60;
        assert(hrem == minute * 60 + second && 0 <= second < 60 && minute < 60) by {
            lemma_fundamental_div_mod(hrem as int, 60);
        };

        let mut y: i64 = 1970;
        assert(day_number(1970, 1, 1) == 0);
        while y < 9999 && days_at_jan1(y + 1) <= day
            invariant
                1970 <= y <= 9999,
                day_number(y as int, 1, 1) <= day as int,
                0 <= day <= MAX_DAY_NUMBER,
            decreases 9999 - y,
        {
            y = y + 1;
        }
        assert(day_number(y as int + 1, 1, 1) > day as int) by {
            if y >= 9999 {
                assert(day_number(10000, 1, 1) == MAX_DAY_NUMBER + 1);
            }
        };

        let jan1 = days_at_jan1(y);
        let mut m: i64 = 1;
        let mut drem: i64 = day - jan1;
        while drem >= days_in_month(y, m)
            invariant
                1 <= m <= 12,
                1970 <= y <= 9999,
                0 <= drem,
                day_number(y as int, m as int, 1) + drem == day as int,
                day_number(y as int + 1, 1, 1) > day as int,
            decreases 12 - m,
        {
            proof {
                lemma_month_step(y as int, m as int);
                if m == 12 {
                    // A full December would step past January first.
                    assert(false);
                }
            }
            drem = drem - days_in_month(y, m);
            m = m + 1;
        }
        let d = drem + 1;
        let date = Date { year: y, month: m, day: d };
        let time = ClockTime { hour, minute, second };
        assert(date.spec_day_number() == day as int);
        assert(epoch_of(date.y(), date.m(), date.d(), time.h(), time.mi(), time.s()) == self@);
        (date, time)
    }
}

/// Reads exactly two digit characters at `i` as a number.
pub open spec fn spec_two_digit_val(s: Seq<char>, i: int) -> int {
    digit_val(s[i]) * 10 + digit_val(s[i + 1])
}

/// Reads exactly four digit characters at `i` as a number.
pub open spec fn spec_four_digit_val(s: Seq<char>, i: int) -> int {
    digit_val(s[i]) * 1000 + digit_val(s[i + 1]) * 100 + digit_val(s[i + 2]) * 10 + digit_val(
        s[i + 3],
    )
}

/// Whether the characters at `i ..= i+1` are digits.
pub open spec fn spec_two_digits_at(s: Seq<char>, i: int) -> bool {
    is_digit(s[i]) && is_digit(s[i + 1])
}

/// Whether the characters at `i ..= i+3` are digits.
pub open spec fn spec_four_digits_at(s: Seq<char>, i: int) -> bool {
    is_digit(s[i]) && is_digit(s[i + 1]) && is_digit(s[i + 2]) && is_digit(s[i + 3])
}

pub(crate) fn read_two_digits(v: &Vec<char>, i: usize) -> (r: Option<i64>)
    requires
        i + 2 <= v@.len(),
    ensures
        spec_two_digits_at(v@, i as int) ==> (r matches Some(n) && n == spec_two_digit_val(
            v@,
            i as int,
        ) && 0 <= n < 100),
        !spec_two_digits_at(v@, i as int) ==> r is None,
{
    let n = v.len();
    let c0 = v[i];
    let c1 = v[i + 1];
    if '0' <= c0 && c0 <= '9' && '0' <= c1 && c1 <= '9' {
        let n0 = c0 as i64 - 48;
        let n1 = c1 as i64 - 48;
        Some(n0 * 10 + n1)
    } else {
        None
    }
}

pub(crate) fn read_four_digits(v: &Vec<char>, i: usize) -> (r: Option<i64>)
    requires
        i + 4 <= v@.len(),
    ensures
        spec_four_digits_at(v@, i as int) ==> (r matches Some(n) && n == spec_four_digit_val(
            v@,
            i as int,
        ) && 0 <= n < 10000),
        !spec_four_digits_at(v@, i as int) ==> r is None,
{
    let n = v.len();
    let a = read_two_digits(v, i);
    let b = read_two_digits(v, i + 2);
    match (a, b) {
        (Some(hi), Some(lo)) => Some(hi * 100 + lo),
        _ => None,
    }
}

/// What a date text must look like: `YYYY-MM-DD`, all fields zero padded.
pub open spec fn spec_date_text_shape(s: Seq<char>) -> bool {
    s.len() == 10 && spec_four_digits_at(s, 0) && s[4] == '-' && spec_two_digits_at(s, 5) && s[7]
        == '-' && spec_two_digits_at(s, 8)
}

/// The date a well-shaped date text names.
pub open spec fn spec_date_text_fields(s: Seq<char>) -> (int, int, int) {
    (spec_four_digit_val(s, 0), spec_two_digit_val(s, 5), spec_two_digit_val(s, 8))
}

/// Parses a calendar date written `YYYY-MM-DD`.
///
/// Returns `Malformed` when the text does not have that shape, and
/// `InvalidValue` when the fields do not name a supported calendar date.
pub fn parse_date(date_str: &str) -> (r: Result<Date, ParseError>)
    ensures
        !spec_date_text_shape(date_str@) ==> r === Err(ParseError::Malformed),
        spec_date_text_shape(date_str@) ==> {
            let (y, m, d) = spec_date_text_fields(date_str@);
            &&& valid_date(y, m, d) ==> (r matches Ok(date) && date.y() == y && date.m() == m
                && date.d() == d)
            &&& !valid_date(y, m, d) ==> r === Err(ParseError::InvalidValue)
        },
{
    let v = str_to_chars(date_str);
    if v.len() != 10 {
        return Err(ParseError::Malformed);
    }
    if !(v[4] == '-' && v[7] == '-') {
        return Err(ParseError::Malformed);
    }
    let y = read_four_digits(&v, 0);
    let m = read_two_digits(&v, 5);
    let d = read_two_digits(&v, 8);
    match (y, m, d) {
        (Some(y), Some(m), Some(d)) => Date::from_ymd(y, m, d),
        _ => Err(ParseError::Malformed),
    }
}

/// What a time text must look like: `HH:MM:SS`, all fields zero padded.
pub open spec fn spec_time_text_shape(s: Seq<char>) -> bool {
    s.len() == 8 && spec_two_digits_at(s, 0) && s[2] == ':' && spec_two_digits_at(s, 3) && s[5]
        == ':' && spec_two_digits_at(s, 6)
}

/// The time of day a well-shaped time text names.
pub open spec fn spec_time_text_fields(s: Seq<char>) -> (int, int, int) {
    (spec_two_digit_val(s, 0), spec_two_digit_val(s, 3), spec_two_digit_val(s, 6))
}

/// Parses a time of day written `HH:MM:SS`.
///
/// Returns `Malformed` when the text does not have that shape, and
/// `InvalidValue` when the fields do not name a time of day.
pub fn parse_time(time_str: &str) -> (r: Result<ClockTime, ParseError>)
    ensures
        !spec_time_text_shape(time_str@) ==> r === Err(ParseError::Malformed),
        spec_time_text_shape(time_str@) ==> {
            let (h, mi, s) = spec_time_text_fields(time_str@);
            &&& (0 <= h < 24 && 0 <= mi < 60 && 0 <= s < 60) ==> (r matches Ok(t) && t.h() == h
                && t.mi() == mi && t.s() == s)
            &&& !(0 <= h < 24 && 0 <= mi < 60 && 0 <= s < 60) ==> r === Err(
                ParseError::InvalidValue,
            )
        },
{
    let v = str_to_chars(time_str);
    if v.len() != 8 {
        return Err(ParseError::Malformed);
    }
    if !(v[2] == ':' && v[5] == ':') {
        return Err(ParseError::Malformed);
    }
    let h = read_two_digits(&v, 0);
    let mi = read_two_digits(&v, 3);
    let s = read_two_digits(&v, 6);
    match (h, mi, s) {
        (Some(h), Some(mi), Some(s)) => ClockTime::from_hms(h, mi, s),
        _ => Err(ParseError::Malformed),
    }
}

} // verus!
