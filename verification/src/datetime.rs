//! Proleptic Gregorian calendar arithmetic in UTC: validated construction,
//! conversion to and from UNIX timestamps, and ISO-8601 rendering.

use vstd::prelude::*;
use crate::clock::unix_seconds;
use crate::text::{push_signed_zero_padded, push_zero_padded, signed_zero_padded, zero_padded, string_push};

verus! {

/// Gregorian leap-year rule.
pub open spec fn is_leap(y: int) -> bool {
    (y % 4 == 0 && y % 100 != 0) || y % 400 == 0
}

pub open spec fn days_in_year(y: int) -> int {
    if is_leap(y) { 366 } else { 365 }
}

/// Days in month `m` (1..=12) of year `y`; 0 for any other month number.
pub open spec fn days_in_month_spec(y: int, m: int) -> int {
    if m == 4 || m == 6 || m == 9 || m == 11 {
        30
    } else if m == 2 {
        if is_leap(y) { 29 } else { 28 }
    } else if 1 <= m <= 12 {
        31
    } else {
        0
    }
}

/// Days in the months of year `y` that come before month `m` (1..=13).
pub open spec fn days_before_month(y: int, m: int) -> int {
    let base: int = if m <= 1 { 0 }
        else if m == 2 { 31 }
        else if m == 3 { 59 }
        else if m == 4 { 90 }
        else if m == 5 { 120 }
        else if m == 6 { 151 }
        else if m == 7 { 181 }
        else if m == 8 { 212 }
        else if m == 9 { 243 }
        else if m == 10 { 273 }
        else if m == 11 { 304 }
        else if m == 12 { 334 }
        else { 365 };
    if m > 2 && is_leap(y) { base + 1 } else { base }
}

/// Signed number of days from 1970-01-01 to January 1st of year `y`.
pub open spec fn days_before_year(y: int) -> int
    decreases (if y >= 1970 { y - 1970 } else { 1970 - y }),
{
    if y == 1970 {
        0
    } else if y > 1970 {
        days_before_year(y - 1) + days_in_year(y - 1)
    } else {
        days_before_year(y + 1) - days_in_year(y)
    }
}

/// Seconds since the UNIX epoch of the given calendar fields.
pub open spec fn epoch_seconds(y: int, mo: int, d: int, h: int, mi: int, s: int) -> int {
    (days_before_year(y) + days_before_month(y, mo) + (d - 1)) * 86400 + h * 3600 + mi * 60 + s
}

/// The range of timestamps whose calendar year fits in an `i32`.
pub open spec fn timestamp_in_range(t: int) -> bool {
    days_before_year(i32::MIN as int) * 86400 <= t < days_before_year(i32::MAX as int + 1) * 86400
}

pub proof fn lemma_days_before_year_step(y: int)
    ensures
        days_before_year(y + 1) == days_before_year(y) + days_in_year(y),
{
    if y >= 1970 {
        assert(days_before_year(y + 1) == days_before_year(y) + days_in_year(y));
    } else {
        assert(days_before_year(y) == days_before_year(y + 1) - days_in_year(y));
    }
}

/// The number of leap years among years 1 to `y - 1` (counting backwards below 1).
pub open spec fn leaps_before(y: int) -> int {
    (y - 1) / 4 - (y - 1) / 100 + (y - 1) / 400
}

/// One more year past `x` adds one to `(x + 1) / d` exactly when `d` divides `x + 1`.
proof fn lemma_div_step(x: int, d: int)
    requires
        d > 0,
    ensures
        (x + 1) / d - x / d == if (x + 1) % d == 0 { 1int } else { 0int },
{
    assert((x + 1) / d - x / d == if (x + 1) % d == 0 { 1int } else { 0int }) by (nonlinear_arith)
        requires
            d > 0,
    {
        vstd::arithmetic::div_mod::lemma_fundamental_div_mod(x, d);
        vstd::arithmetic::div_mod::lemma_fundamental_div_mod(x + 1, d);
    }
}

/// Passing year `y` adds one to the count of leap years exactly when `y` is a leap year.
proof fn lemma_leaps_step(y: int)
    ensures
        leaps_before(y + 1) == leaps_before(y) + if is_leap(y) { 1int } else { 0int },
{
    lemma_div_step(y - 1, 4);
    lemma_div_step(y - 1, 100);
    lemma_div_step(y - 1, 400);
    assert(y % 100 == 0 ==> y % 4 == 0) by (nonlinear_arith);
    assert(y % 400 == 0 ==> y % 100 == 0) by (nonlinear_arith);
}

/// The months' lengths add up month by month to the year's: the days before month `m + 1`
/// are those before month `m` plus the length of month `m`, and all twelve months together
/// make the year.
pub proof fn lemma_months_fill_year(y: int, m: int)
    requires
        1 <= m <= 12,
    ensures
        days_before_month(y, m + 1) == days_before_month(y, m) + days_in_month_spec(y, m),
        days_before_month(y, 1) == 0,
        days_before_month(y, 13) == days_in_year(y),
        28 <= days_in_month_spec(y, m) <= 31,
{
}

/// The days from 1970 to the start of year `y` are 365 per year plus one per leap year.
proof fn lemma_days_closed_form(y: int)
    ensures
        days_before_year(y) == 365 * (y - 1970) + leaps_before(y) - leaps_before(1970),
    decreases (if y >= 1970 { y - 1970 } else { 1970 - y }),
{
    if y > 1970 {
        lemma_days_closed_form(y - 1);
        lemma_days_before_year_step(y - 1);
        lemma_leaps_step(y - 1);
    } else if y < 1970 {
        lemma_days_closed_form(y + 1);
        lemma_days_before_year_step(y);
        lemma_leaps_step(y);
    }
}

/// Every 400 consecutive years hold exactly 146097 days: 97 of them are leap years. A year
/// divisible by 100 is a leap year only when divisible by 400, so that 1800, 1900, 2100 and
/// 2200 are common years and February then has 28 days; other years divisible by 4 are leap
/// years, with a 29-day February, and the rest are common.
pub proof fn lemma_gregorian_cycle(y: int)
    ensures
        days_before_year(y + 400) == days_before_year(y) + 146097,
        is_leap(y) ==> y % 4 == 0,
        y % 4 == 0 && y % 100 != 0 ==> is_leap(y),
        y % 100 == 0 ==> (is_leap(y) <==> y % 400 == 0),
        days_in_month_spec(y, 2) == if is_leap(y) { 29int } else { 28int },
        days_in_year(y) == 365 + days_in_month_spec(y, 2) - 28,
{
    lemma_days_closed_form(y);
    lemma_days_closed_form(y + 400);
    assert((y + 399) / 4 == (y - 1) / 4 + 100) by (nonlinear_arith);
    assert((y + 399) / 100 == (y - 1) / 100 + 4) by (nonlinear_arith);
    assert((y + 399) / 400 == (y - 1) / 400 + 1) by (nonlinear_arith);
    assert(y % 400 == 0 ==> y % 100 == 0) by (nonlinear_arith);
}

/// Between two years lie between 365 and 366 days per year.
pub proof fn lemma_days_before_year_bounds(a: int, b: int)
    requires
        a <= b,
    ensures
        days_before_year(a) + 365 * (b - a) <= days_before_year(b) <= days_before_year(a) + 366 * (b - a),
    decreases b - a,
{
    if a < b {
        lemma_days_before_year_bounds(a, b - 1);
        lemma_days_before_year_step(b - 1);
    }
}

/// The day number of a valid date lies inside its year.
proof fn lemma_day_in_year(y: int, mo: int, d: int)
    requires
        1 <= mo <= 12,
        1 <= d <= days_in_month_spec(y, mo),
    ensures
        0 <= days_before_month(y, mo) + d - 1 < days_in_year(y),
        days_before_month(y, mo) + d - 1 < days_before_month(y, mo + 1),
        days_before_month(y, mo + 1) == days_before_month(y, mo) + days_in_month_spec(y, mo),
{
}

/// Days before months are strictly increasing within a year.
proof fn lemma_month_order(y: int, a: int, b: int)
    requires
        1 <= a < b <= 13,
    ensures
        days_before_month(y, a + 1) <= days_before_month(y, b),
{
}

/// Years occupy disjoint, consecutive ranges of day numbers.
proof fn lemma_year_unique(y1: int, y2: int, n1: int, n2: int)
    requires
        0 <= n1 < days_in_year(y1),
        0 <= n2 < days_in_year(y2),
        days_before_year(y1) + n1 == days_before_year(y2) + n2,
    ensures
        y1 == y2,
{
    if y1 < y2 {
        lemma_days_before_year_bounds(y1 + 1, y2);
        lemma_days_before_year_step(y1);
    } else if y2 < y1 {
        lemma_days_before_year_bounds(y2 + 1, y1);
        lemma_days_before_year_step(y2);
    }
}

/// Two valid calendar values that denote the same instant are equal; hence converting a
/// valid DateTime to a timestamp and back gives the same DateTime.
pub proof fn lemma_timestamp_injective(a: DateTime, b: DateTime)
    requires
        a.wf(),
        b.wf(),
        a.timestamp_spec() == b.timestamp_spec(),
    ensures
        a == b,
{
    let da = days_before_year(a.year as int) + days_before_month(a.year as int, a.month as int) + (a.day - 1);
    let db = days_before_year(b.year as int) + days_before_month(b.year as int, b.month as int) + (b.day - 1);
    let sa = a.hour * 3600 + a.minute * 60 + a.second;
    let sb = b.hour * 3600 + b.minute * 60 + b.second;
    assert(0 <= sa < 86400 && 0 <= sb < 86400);
    assert(da == db && sa == sb) by (nonlinear_arith)
        requires
            da * 86400 + sa == db * 86400 + sb,
            0 <= sa < 86400,
            0 <= sb < 86400,
    {}
    lemma_day_in_year(a.year as int, a.month as int, a.day as int);
    lemma_day_in_year(b.year as int, b.month as int, b.day as int);
    lemma_year_unique(
        a.year as int,
        b.year as int,
        days_before_month(a.year as int, a.month as int) + a.day - 1,
        days_before_month(b.year as int, b.month as int) + b.day - 1,
    );
    if a.month < b.month {
        lemma_month_order(a.year as int, a.month as int, b.month as int);
    } else if b.month < a.month {
        lemma_month_order(a.year as int, b.month as int, a.month as int);
    }
    assert(a.month == b.month);
    assert(a.day == b.day);
    assert(a.hour == b.hour && a.minute == b.minute && a.second == b.second) by (nonlinear_arith)
        requires
            sa == sb,
            sa == a.hour * 3600 + a.minute * 60 + a.second,
            sb == b.hour * 3600 + b.minute * 60 + b.second,
            a.hour <= 23, a.minute <= 59, a.second <= 59,
            b.hour <= 23, b.minute <= 59, b.second <= 59,
    {}
}

/// Every valid DateTime denotes a timestamp that `from_timestamp` accepts.
pub proof fn lemma_valid_timestamp_in_range(dt: DateTime)
    requires
        dt.wf(),
    ensures
        timestamp_in_range(dt.timestamp_spec()),
{
    let y = dt.year as int;
    let n = days_before_month(y, dt.month as int) + dt.day - 1;
    lemma_day_in_year(y, dt.month as int, dt.day as int);
    lemma_days_before_year_bounds(i32::MIN as int, y);
    lemma_days_before_year_bounds(y + 1, i32::MAX as int + 1);
    lemma_days_before_year_step(y);
    let s = dt.hour * 3600 + dt.minute * 60 + dt.second;
    assert(0 <= s < 86400);
    let dd = days_before_year(y) + n;
    assert(days_before_year(i32::MIN as int) <= dd < days_before_year(i32::MAX as int + 1));
    assert(days_before_year(i32::MIN as int) * 86400 <= dd * 86400 + s < days_before_year(i32::MAX as int + 1) * 86400) by (nonlinear_arith)
        requires
            days_before_year(i32::MIN as int) <= dd < days_before_year(i32::MAX as int + 1),
            0 <= s < 86400,
    {}
}

/// A calendar date and time of day in UTC.
#[derive(Debug, Clone, Copy, PartialEq, Eq, PartialOrd, Ord)]
pub struct DateTime {
    pub year: i32,
    pub month: u8,
    pub day: u8,
    pub hour: u8,
    pub minute: u8,
    pub second: u8,
}

impl DateTime {
    /// Every field lies in its calendar range.
    pub open spec fn wf(self) -> bool {
        &&& 1 <= self.month <= 12
        &&& 1 <= self.day <= days_in_month_spec(self.year as int, self.month as int)
        &&& self.hour <= 23
        &&& self.minute <= 59
        &&& self.second <= 59
    }

    /// Seconds since the UNIX epoch that this date and time denotes.
    pub open spec fn timestamp_spec(self) -> int {
        epoch_seconds(
            self.year as int,
            self.month as int,
            self.day as int,
            self.hour as int,
            self.minute as int,
            self.second as int,
        )
    }

    /// The ISO-8601 text `YYYY-MM-DDTHH:MM:SSZ` of this value.
    pub open spec fn iso8601_spec(self) -> Seq<char> {
        signed_zero_padded(self.year as int, 4) + seq!['-']
            + zero_padded(self.month as nat, 2) + seq!['-']
            + zero_padded(self.day as nat, 2) + seq!['T']
            + zero_padded(self.hour as nat, 2) + seq![':']
            + zero_padded(self.minute as nat, 2) + seq![':']
            + zero_padded(self.second as nat, 2) + seq!['Z']
    }

    /// Creates a new DateTime, validating the inputs.
    pub fn new(year: i32, month: u8, day: u8, hour: u8, minute: u8, second: u8) -> (r: Option<Self>)
        ensures
            ({
                let dt = DateTime { year, month, day, hour, minute, second };
                &&& dt.wf() ==> r == Some(dt)
                &&& !dt.wf() ==> r is None
            }),
    {
        if month < 1 || month > 12 {
            return None;
        }
        if day < 1 || day > Self::days_in_month(year, month) {
            return None;
        }
        if hour > 23 || minute > 59 || second > 59 {
            return None;
        }
        Some(Self { year, month, day, hour, minute, second })
    }

    /// The current UTC time by the system clock. A clock reading before 1970 counts as the
    /// epoch, and one past 2^55 seconds after it (a billion years ahead) as that bound.
    pub fn now() -> (r: Self)
        ensures
            r.wf(),
            0 <= r.timestamp_spec() <= 0x80_0000_0000_0000,
    {
        let secs: u64 = match unix_seconds() {
            Some(s) => if s > 0x80_0000_0000_0000 { 0x80_0000_0000_0000 } else { s },
            None => 0,
        };
        proof {
            lemma_days_before_year_bounds(1970, i32::MAX as int + 1);
            lemma_days_before_year_bounds(i32::MIN as int, 1970);
            assert(days_before_year(1970) == 0);
        }
        Self::from_timestamp(secs as i64)
    }

    /// Converts a UNIX timestamp (seconds since 1970-01-01T00:00:00Z) to a DateTime.
    pub fn from_timestamp(timestamp: i64) -> (r: Self)
        requires
            timestamp_in_range(timestamp as int),
        ensures
            r.wf(),
            r.timestamp_spec() == timestamp as int,
    {
        let mut days: i64 = timestamp / 86400;
        let mut secs_of_day: i64 = timestamp % 86400;
        if secs_of_day < 0 {
            secs_of_day = secs_of_day + 86400;
            days = days - 1;
        }
        assert(days * 86400 + secs_of_day == timestamp && 0 <= secs_of_day < 86400);
        let ghost total_days = days as int;
        let hour = (secs_of_day / 3600) as u8;
        secs_of_day = secs_of_day % 3600;
        let minute = (secs_of_day / 60) as u8;
        let second = (secs_of_day % 60) as u8;
        let mut year: i32 = 1970;
        proof {
            lemma_days_before_year_bounds(i32::MIN as int, 1970);
            lemma_days_before_year_bounds(1970, i32::MAX as int + 1);
        }
        if days >= 0 {
            loop
                invariant
                    1970 <= year <= i32::MAX,
                    0 <= days,
                    days_before_year(year as int) + days == total_days,
                    total_days * 86400 <= timestamp,
                    timestamp_in_range(timestamp as int),
                ensures
                    1970 <= year,
                    0 <= days < days_in_year(year as int),
                    days_before_year(year as int) + days == total_days,
                decreases days,
            {
                let days_in_year: i64 = if Self::is_leap_year(year) { 366 } else { 365 };
                if days < days_in_year {
                    break;
                }
                proof {
                    lemma_days_before_year_step(year as int);
                    if year as int + 1 > i32::MAX as int {
                        lemma_days_before_year_bounds(year as int + 1, i32::MAX as int + 1);
                    }
                }
                days = days - days_in_year;
                year = year + 1;
            }
        } else {
            loop
                invariant_except_break
                    days < 0,
                invariant
                    i32::MIN <= year <= 1970,
                    days_before_year(year as int) + days == total_days,
                    total_days * 86400 + 86400 > timestamp,
                    timestamp_in_range(timestamp as int),
                ensures
                    0 <= days < days_in_year(year as int),
                    days_before_year(year as int) + days == total_days,
                decreases year - i32::MIN,
            {
                proof {
                    lemma_days_before_year_step(year as int - 1);
                    if year == i32::MIN {
                        assert(false);
                    }
                }
                year = year - 1;
                let days_in_year: i64 = if Self::is_leap_year(year) { 366 } else { 365 };
                days = days + days_in_year;
                if days >= 0 {
                    break;
                }
            }
        }
        let ghost day_of_year = days as int;
        let mut month: u8 = 1;
        loop
            invariant
                1 <= month <= 12,
                0 <= days,
                days_before_month(year as int, month as int) + days == day_of_year,
                day_of_year < days_in_year(year as int),
            ensures
                1 <= month <= 12,
                0 <= days < days_in_month_spec(year as int, month as int),
                days_before_month(year as int, month as int) + days == day_of_year,
            decreases 12 - month,
        {
            let dim = Self::days_in_month(year, month) as i64;
            if days < dim {
                break;
            }
            days = days - dim;
            month = month + 1;
        }
        let day = (days + 1) as u8;
        let r = Self { year, month, day, hour, minute, second };
        assert(r.timestamp_spec() == timestamp as int) by (nonlinear_arith)
            requires
                r.timestamp_spec() == (days_before_year(year as int) + days_before_month(year as int, month as int) + (day - 1)) * 86400
                    + hour * 3600 + minute * 60 + second,
                days_before_year(year as int) + days_before_month(year as int, month as int) + (day - 1) == total_days,
                total_days * 86400 + (hour * 3600 + minute * 60 + second) == timestamp,
        {}
        r
    }

    /// Converts the DateTime to a UNIX timestamp.
    pub fn to_timestamp(&self) -> (r: i64)
        requires
            self.wf(),
        ensures
            r as int == self.timestamp_spec(),
    {
        let mut days: i64 = 0;
        proof {
            lemma_days_before_year_bounds(i32::MIN as int, 1970);
            lemma_days_before_year_bounds(1970, i32::MAX as int + 1);
        }
        if self.year >= 1970 {
            let mut y: i32 = 1970;
            while y < self.year
                invariant
                    1970 <= y <= self.year,
                    days == days_before_year(y as int),
                    0 <= days <= 366 * (y - 1970),
                decreases self.year - y,
            {
                proof {
                    lemma_days_before_year_step(y as int);
                }
                days = days + if Self::is_leap_year(y) { 366 } else { 365 };
                y = y + 1;
            }
        } else {
            let mut y: i32 = 1970;
            while y > self.year
                invariant
                    self.year <= y <= 1970,
                    days == days_before_year(y as int),
                    -366 * (1970 - y) <= days <= 0,
                decreases y - self.year,
            {
                proof {
                    lemma_days_before_year_step(y as int - 1);
                }
                y = y - 1;
                days = days - if Self::is_leap_year(y) { 366 } else { 365 };
            }
        }
        let mut m: u8 = 1;
        while m < self.month
            invariant
                1 <= m <= self.month <= 12,
                days == days_before_year(self.year as int) + days_before_month(self.year as int, m as int),
                -366 * 4294967296 <= days_before_year(self.year as int) <= 366 * 4294967296,
                self.wf(),
            decreases self.month - m,
        {
            days = days + Self::days_in_month(self.year, m) as i64;
            m = m + 1;
        }
        days = days + (self.day - 1) as i64;
        days * 86400 + (self.hour as i64) * 3600 + (self.minute as i64) * 60 + (self.second as i64)
    }

    /// Returns the ISO-8601 string representation (YYYY-MM-DDTHH:MM:SSZ).
    #[verifier::spinoff_prover]
    pub fn to_iso8601(&self) -> (r: String)
        ensures
            r@ == self.iso8601_spec(),
    {
        let mut s = String::new();
        push_signed_zero_padded(&mut s, self.year as i64, 4);
        string_push(&mut s, '-');
        push_zero_padded(&mut s, self.month as u64, 2);
        string_push(&mut s, '-');
        push_zero_padded(&mut s, self.day as u64, 2);
        string_push(&mut s, 'T');
        push_zero_padded(&mut s, self.hour as u64, 2);
        string_push(&mut s, ':');
        push_zero_padded(&mut s, self.minute as u64, 2);
        string_push(&mut s, ':');
        push_zero_padded(&mut s, self.second as u64, 2);
        string_push(&mut s, 'Z');
        proof {
            assert(s@ =~= self.iso8601_spec());
        }
        s
    }

    /// Checks if a year is a leap year in the Gregorian calendar.
    pub fn is_leap_year(year: i32) -> (r: bool)
        ensures
            r == is_leap(year as int),
    {
        (year % 4 == 0 && year % 100 != 0) || year % 400 == 0
    }

    /// Returns the number of days in a given month of a given year (0 for a month outside 1..=12).
    pub fn days_in_month(year: i32, month: u8) -> (r: u8)
        ensures
            r as int == days_in_month_spec(year as int, month as int),
    {
        match month {
            4 | 6 | 9 | 11 => 30,
            2 => {
                if Self::is_leap_year(year) {
                    29
                } else {
                    28
                }
            },
            1 | 3 | 5 | 7 | 8 | 10 | 12 => 31,
            _ => 0,
        }
    }
}

} // verus!
