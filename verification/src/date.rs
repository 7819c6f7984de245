//! Calendar dates of feed items, and the chrono calls that read and print them.
use vstd::prelude::*;
use chrono::Datelike;

verus! {

/// The smallest year that a `chrono::NaiveDate` can hold.
pub open spec fn min_year() -> int {
    -262143
}

/// The largest year that a `chrono::NaiveDate` can hold.
pub open spec fn max_year() -> int {
    262142
}

/// Leap years of the proleptic Gregorian calendar.
pub open spec fn is_leap_year(y: int) -> bool {
    (y % 4 == 0 && y % 100 != 0) || y % 400 == 0
}

/// The number of days of month `m` (1 to 12) in year `y`.
pub open spec fn days_in_month(y: int, m: int) -> int {
    if m == 2 {
        if is_leap_year(y) {
            29
        } else {
            28
        }
    } else if m == 4 || m == 6 || m == 9 || m == 11 {
        30
    } else {
        31
    }
}

/// Whether `y-m-d` is a date that `chrono::NaiveDate` can hold.
pub open spec fn valid_ymd(y: int, m: int, d: int) -> bool {
    &&& min_year() <= y <= max_year()
    &&& 1 <= m <= 12
    &&& 1 <= d <= days_in_month(y, m)
}

/// Days from 1970-01-01 to `y-m-d` in the proleptic Gregorian calendar.
pub open spec fn days_from_epoch(y: int, m: int, d: int) -> int {
    let yy = if m <= 2 {
        y - 1
    } else {
        y
    };
    let era = yy / 400;
    let yoe = yy - era * 400;
    let mp = if m > 2 {
        m - 3
    } else {
        m + 9
    };
    let doy = (153 * mp + 2) / 5 + d - 1;
    let doe = yoe * 365 + yoe / 4 - yoe / 100 + doy;
    era * 146097 + doe - 719468
}

/// The day of the week of `y-m-d`, 0 for Sunday to 6 for Saturday (1970-01-01 was a Thursday).
pub open spec fn weekday(y: int, m: int, d: int) -> int {
    (days_from_epoch(y, m, d) + 4) % 7
}

/// A calendar date that `chrono::NaiveDate` can hold.
#[derive(Debug, Clone, Copy, PartialEq, Eq, Structural)]
pub struct Date {
    year: i32,
    month: u32,
    day: u32,
}

impl Date {
    /// Every `Date` holds a valid date.
    #[verifier::type_invariant]
    pub open spec fn holds_valid_date(self) -> bool {
        valid_ymd(self.spec_year() as int, self.spec_month() as int, self.spec_day() as int)
    }

    /// The year.
    pub closed spec fn spec_year(self) -> i32 {
        self.year
    }

    /// The month, 1 to 12.
    pub closed spec fn spec_month(self) -> u32 {
        self.month
    }

    /// The day of the month.
    pub closed spec fn spec_day(self) -> u32 {
        self.day
    }

    /// The date `year-month-day`, if it exists and `chrono::NaiveDate` can hold it
    /// (`NaiveDate::from_ymd_opt`).
    pub fn from_ymd_opt(year: i32, month: u32, day: u32) -> (r: Option<Date>)
        ensures
            r is Some <==> valid_ymd(year as int, month as int, day as int),
            r matches Some(d) ==> d.spec_year() == year && d.spec_month() == month && d.spec_day()
                == day,
    {
        if year < -262143 || year > 262142 || month < 1 || month > 12 || day < 1 {
            return None;
        }
        let y: i64 = year as i64 + 400000;
        let leap = (y % 4 == 0 && y % 100 != 0) || y % 400 == 0;
        assert(leap == is_leap_year(year as int)) by {
            assert((year + 400000) % 4 == year % 4);
            assert((year + 400000) % 100 == year % 100);
            assert((year + 400000) % 400 == year % 400);
        }
        let days: u32 = if month == 2 {
            if leap {
                29
            } else {
                28
            }
        } else if month == 4 || month == 6 || month == 9 || month == 11 {
            30
        } else {
            31
        };
        if day > days {
            return None;
        }
        Some(Date { year, month, day })
    }

    /// The year.
    pub fn year(&self) -> (r: i32)
        ensures
            r == self.spec_year(),
    {
        self.year
    }

    /// The month, 1 to 12.
    pub fn month(&self) -> (r: u32)
        ensures
            r == self.spec_month(),
    {
        self.month
    }

    /// The day of the month.
    pub fn day(&self) -> (r: u32)
        ensures
            r == self.spec_day(),
    {
        self.day
    }

    /// Whether this date comes before `other` (the order of `chrono::NaiveDate`).
    pub fn is_before(&self, other: &Date) -> (r: bool)
        ensures
            r == date_before(*self, *other),
    {
        self.year < other.year || (self.year == other.year && (self.month < other.month || (
        self.month == other.month && self.day < other.day)))
    }
}

/// The calendar order of dates: by year, then month, then day.
pub open spec fn date_before(a: Date, b: Date) -> bool {
    ||| a.spec_year() < b.spec_year()
    ||| (a.spec_year() == b.spec_year() && a.spec_month() < b.spec_month())
    ||| (a.spec_year() == b.spec_year() && a.spec_month() == b.spec_month() && a.spec_day()
        < b.spec_day())
}

// ---------------------------------------------------------------------------------------------
// Printing and reading dates
// ---------------------------------------------------------------------------------------------

/// The decimal digit `n` (0 to 9).
pub open spec fn digit(n: int) -> char {
    ((n + 48) as u8) as char
}

/// `n` (0 to 99) in two digits.
pub open spec fn two_digits(n: int) -> Seq<char> {
    seq![digit(n / 10), digit(n % 10)]
}

/// `n` (0 to 9999) in four digits.
pub open spec fn four_digits(n: int) -> Seq<char> {
    two_digits(n / 100) + two_digits(n % 100)
}

/// The English abbreviation of month `m` (`%b`).
pub open spec fn month_abbrev(m: int) -> Seq<char> {
    if m == 1 {
        seq!['J', 'a', 'n']
    } else if m == 2 {
        seq!['F', 'e', 'b']
    } else if m == 3 {
        seq!['M', 'a', 'r']
    } else if m == 4 {
        seq!['A', 'p', 'r']
    } else if m == 5 {
        seq!['M', 'a', 'y']
    } else if m == 6 {
        seq!['J', 'u', 'n']
    } else if m == 7 {
        seq!['J', 'u', 'l']
    } else if m == 8 {
        seq!['A', 'u', 'g']
    } else if m == 9 {
        seq!['S', 'e', 'p']
    } else if m == 10 {
        seq!['O', 'c', 't']
    } else if m == 11 {
        seq!['N', 'o', 'v']
    } else {
        seq!['D', 'e', 'c']
    }
}

/// The English abbreviation of week day `w`, 0 for Sunday (`%a`).
pub open spec fn weekday_abbrev(w: int) -> Seq<char> {
    if w == 0 {
        seq!['S', 'u', 'n']
    } else if w == 1 {
        seq!['M', 'o', 'n']
    } else if w == 2 {
        seq!['T', 'u', 'e']
    } else if w == 3 {
        seq!['W', 'e', 'd']
    } else if w == 4 {
        seq!['T', 'h', 'u']
    } else if w == 5 {
        seq!['F', 'r', 'i']
    } else {
        seq!['S', 'a', 't']
    }
}

/// `y-m-d` at noon in `%a, %d %b %Y %H:%M:%S +0000` for a year of four digits.
pub open spec fn rfc2822_noon(y: int, m: int, d: int) -> Seq<char> {
    weekday_abbrev(weekday(y, m, d)) + seq![',', ' '] + two_digits(d) + seq![' '] + month_abbrev(m)
        + seq![' '] + four_digits(y) + seq![
        ' ',
        '1',
        '2',
        ':',
        '0',
        '0',
        ':',
        '0',
        '0',
        ' ',
        '+',
        '0',
        '0',
        '0',
        '0',
    ]
}

/// `y-m-d` at noon in `%Y-%m-%dT%H:%M:%SZ` for a year of four digits.
pub open spec fn iso8601_noon(y: int, m: int, d: int) -> Seq<char> {
    four_digits(y) + seq!['-'] + two_digits(m) + seq!['-'] + two_digits(d) + seq![
        'T',
        '1',
        '2',
        ':',
        '0',
        '0',
        ':',
        '0',
        '0',
        'Z',
    ]
}

/// What chrono prints for `y-m-d` at 12:00:00 UTC in `%a, %d %b %Y %H:%M:%S +0000`.
pub uninterp spec fn chrono_rfc2822_noon(y: i32, m: u32, d: u32) -> Seq<char>;

/// What chrono prints for `y-m-d` at 12:00:00 UTC in `%Y-%m-%dT%H:%M:%SZ`.
pub uninterp spec fn chrono_iso8601_noon(y: i32, m: u32, d: u32) -> Seq<char>;

/// What `NaiveDate::parse_from_str(text, fmt)` gives, as year, month and day.
pub uninterp spec fn chrono_parsed_date(text: Seq<char>, fmt: Seq<char>) -> Option<(i32, u32, u32)>;

/// `NaiveDate::and_hms_opt(12, 0, 0)`, `and_utc` and `format("%a, %d %b %Y %H:%M:%S +0000")`
/// on `date`. The result is named `chrono_rfc2822_noon`; for a year of four digits chrono's
/// format documentation gives the text itself (`%Y` pads to four digits in that range).
#[verifier::external_body]
pub(crate) fn format_rfc2822_noon(date: &Date) -> (r: String)
    ensures
        r@ == chrono_rfc2822_noon(date.spec_year(), date.spec_month(), date.spec_day()),
        0 <= date.spec_year() <= 9999 ==> r@ == rfc2822_noon(
            date.spec_year() as int,
            date.spec_month() as int,
            date.spec_day() as int,
        ),
{
    let d = chrono::NaiveDate::from_ymd_opt(date.year, date.month, date.day).unwrap();
    d.and_hms_opt(12, 0, 0).unwrap().and_utc().format("%a, %d %b %Y %H:%M:%S +0000").to_string()
}

/// `NaiveDate::and_hms_opt(12, 0, 0)`, `and_utc` and `format("%Y-%m-%dT%H:%M:%SZ")` on
/// `date`. The result is named `chrono_iso8601_noon`; for a year of four digits chrono's
/// format documentation gives the text itself.
#[verifier::external_body]
pub(crate) fn format_iso8601_noon(date: &Date) -> (r: String)
    ensures
        r@ == chrono_iso8601_noon(date.spec_year(), date.spec_month(), date.spec_day()),
        0 <= date.spec_year() <= 9999 ==> r@ == iso8601_noon(
            date.spec_year() as int,
            date.spec_month() as int,
            date.spec_day() as int,
        ),
{
    let d = chrono::NaiveDate::from_ymd_opt(date.year, date.month, date.day).unwrap();
    d.and_hms_opt(12, 0, 0).unwrap().and_utc().format("%Y-%m-%dT%H:%M:%SZ").to_string()
}

/// `NaiveDate::parse_from_str(text, fmt)`, read back as year, month and day. The result is
/// named `chrono_parsed_date`; a `NaiveDate` always holds a valid date.
#[verifier::external_body]
pub(crate) fn parse_date(text: &str, fmt: &str) -> (r: Option<(i32, u32, u32)>)
    ensures
        r == chrono_parsed_date(text@, fmt@),
        r matches Some((y, m, d)) ==> valid_ymd(y as int, m as int, d as int),
{
    match chrono::NaiveDate::parse_from_str(text, fmt) {
        Ok(d) => Some((d.year(), d.month(), d.day())),
        Err(_) => None,
    }
}

/// `Utc::now().date_naive()`: today's date in UTC. What it is depends on the clock, so
/// nothing is said of it but that it is a date.
#[verifier::external_body]
pub(crate) fn today_utc() -> (r: Date) {
    let d = chrono::Utc::now().date_naive();
    Date { year: d.year(), month: d.month(), day: d.day() }
}

/// The date read from `text` in the chrono format `fmt`, if it reads as one.
pub fn date_from_str(text: &str, fmt: &str) -> (r: Option<Date>)
    ensures
        r matches Some(d) ==> chrono_parsed_date(text@, fmt@) == Some(
            (d.spec_year(), d.spec_month(), d.spec_day()),
        ),
        r is None ==> chrono_parsed_date(text@, fmt@) is None,
{
    match parse_date(text, fmt) {
        Some((y, m, d)) => Date::from_ymd_opt(y, m, d),
        None => None,
    }
}

} // verus!
