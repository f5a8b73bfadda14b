//! Calendar days: the library's own date type and what chrono computes on it.

use chrono::Datelike;
use vstd::prelude::*;

verus! {

/// Why a step of the pipeline could not go on.
#[derive(Debug)]
pub enum TrendError {
    /// A day key that is not in `YYYY-MM-DD` form.
    InvalidDateFormat(String),
    /// Fewer than two daily points to fit a line through.
    InsufficientData,
    /// A date beyond the range of the calendar.
    DateOutOfRange,
    /// A value of the fit too large for the integers that hold it.
    Overflow,
}

impl TrendError {
    /// The error that names `key` as a day key in the wrong form.
    pub open spec fn is_invalid_date(self, key: Seq<char>) -> bool {
        match self {
            TrendError::InvalidDateFormat(s) => s@ == key,
            _ => false,
        }
    }
}

/// A day of the proleptic Gregorian calendar.
#[derive(Clone, Copy, Debug, PartialEq, Eq, Structural)]
pub struct CalendarDate {
    pub year: i32,
    pub month: u32,
    pub day: u32,
}

pub open spec fn is_leap_year(y: int) -> bool {
    (y % 4 == 0 && y % 100 != 0) || y % 400 == 0
}

pub open spec fn days_in_month(y: int, m: int) -> int {
    if m == 2 {
        if is_leap_year(y) { 29 } else { 28 }
    } else if m == 4 || m == 6 || m == 9 || m == 11 {
        30
    } else {
        31
    }
}

/// Day of the week by Zeller's congruence, Monday as 0 and Sunday as 6.
pub open spec fn weekday_from_monday(y: int, m: int, d: int) -> int {
    let yy = if m <= 2 { y - 1 } else { y };
    let mm = if m <= 2 { m + 12 } else { m };
    let h = (d + (13 * (mm + 1)) / 5 + yy + yy / 4 - yy / 100 + yy / 400) % 7;
    (h + 5) % 7
}

impl CalendarDate {
    /// A real day within the years that chrono's `NaiveDate` holds.
    pub open spec fn wf(self) -> bool {
        &&& -262143 <= self.year <= 262142
        &&& 1 <= self.month <= 12
        &&& 1 <= self.day <= days_in_month(self.year as int, self.month as int)
    }

    pub open spec fn ymd(self) -> (int, int, int) {
        (self.year as int, self.month as int, self.day as int)
    }
}

/// What chrono reads from a text in a format: a year, month and day, or nothing.
pub uninterp spec fn parsed_date(s: Seq<char>, fmt: Seq<char>) -> Option<(int, int, int)>;

/// What chrono writes for a day in a format.
pub uninterp spec fn formatted_date(y: int, m: int, d: int, fmt: Seq<char>) -> Seq<char>;

/// The day `k` days after a day, where chrono's calendar reaches it.
pub uninterp spec fn date_after(y: int, m: int, d: int, k: int) -> Option<(int, int, int)>;

/// Relies on chrono's `NaiveDate::parse_from_str`: the outcome depends on the
/// text and the format alone, and a date it returns is a real day.
#[verifier::external_body]
pub(crate) fn parse_date(s: &str, fmt: &str) -> (r: Option<CalendarDate>)
    ensures
        r is Some ==> r->Some_0.wf(),
        parsed_date(s@, fmt@) == (match r {
            Some(d) => Some(d.ymd()),
            None => None,
        }),
{
    match chrono::NaiveDate::parse_from_str(s, fmt) {
        Ok(d) => Some(CalendarDate { year: d.year(), month: d.month(), day: d.day() }),
        Err(_) => None,
    }
}

/// Relies on chrono's `NaiveDate::format`: the text depends on the day and the
/// format alone. The two formats admitted are valid, so writing cannot fail.
#[verifier::external_body]
pub(crate) fn format_date_as(d: CalendarDate, fmt: &str) -> (r: String)
    requires
        d.wf(),
        fmt@ == "%Y-%m-%d"@ || fmt@ == "%Y-%m"@,
    ensures
        r@ == formatted_date(d.year as int, d.month as int, d.day as int, fmt@),
{
    chrono::NaiveDate::from_ymd_opt(d.year, d.month, d.day).unwrap().format(fmt).to_string()
}

/// Relies on chrono's `NaiveDate::weekday` and `Weekday::num_days_from_monday`:
/// the weekday of the proleptic Gregorian calendar, Monday as 0.
#[verifier::external_body]
pub(crate) fn weekday_number(d: CalendarDate) -> (r: u32)
    requires
        d.wf(),
    ensures
        r as int == weekday_from_monday(d.year as int, d.month as int, d.day as int),
{
    chrono::NaiveDate::from_ymd_opt(d.year, d.month, d.day).unwrap().weekday().num_days_from_monday()
}

/// Relies on chrono's `NaiveDate::checked_add_days`: the outcome depends on the
/// day and the count alone, and a date it returns is a real day.
#[verifier::external_body]
pub(crate) fn add_days(d: CalendarDate, k: u64) -> (r: Option<CalendarDate>)
    requires
        d.wf(),
    ensures
        r is Some ==> r->Some_0.wf(),
        date_after(d.year as int, d.month as int, d.day as int, k as int) == (match r {
            Some(e) => Some(e.ymd()),
            None => None,
        }),
{
    let start = chrono::NaiveDate::from_ymd_opt(d.year, d.month, d.day).unwrap();
    match start.checked_add_days(chrono::Days::new(k)) {
        Some(e) => Some(CalendarDate { year: e.year(), month: e.month(), day: e.day() }),
        None => None,
    }
}

/// The English name of a weekday numbered from Monday as 0.
pub open spec fn weekday_name(w: int) -> Seq<char> {
    if w == 0 {
        "Monday"@
    } else if w == 1 {
        "Tuesday"@
    } else if w == 2 {
        "Wednesday"@
    } else if w == 3 {
        "Thursday"@
    } else if w == 4 {
        "Friday"@
    } else if w == 5 {
        "Saturday"@
    } else {
        "Sunday"@
    }
}

/// The seven names that a weekday key can take.
pub open spec fn is_weekday_name(s: Seq<char>) -> bool {
    exists|w: int| 0 <= w < 7 && s == weekday_name(w)
}

/// The weekday name of a `YYYY-MM-DD` day key, or nothing where chrono cannot read it.
pub open spec fn weekday_key(day: Seq<char>) -> Option<Seq<char>> {
    match parsed_date(day, "%Y-%m-%d"@) {
        Some((y, m, d)) => Some(weekday_name(weekday_from_monday(y, m, d))),
        None => None,
    }
}

/// The `YYYY-MM` key of a `YYYY-MM-DD` day key, or nothing where chrono cannot read it.
pub open spec fn month_key(day: Seq<char>) -> Option<Seq<char>> {
    match parsed_date(day, "%Y-%m-%d"@) {
        Some((y, m, d)) => Some(formatted_date(y, m, d, "%Y-%m"@)),
        None => None,
    }
}

pub(crate) fn weekday_string(w: u32) -> (r: String)
    requires
        w < 7,
    ensures
        r@ == weekday_name(w as int),
{
    let name = if w == 0 {
        "Monday"
    } else if w == 1 {
        "Tuesday"
    } else if w == 2 {
        "Wednesday"
    } else if w == 3 {
        "Thursday"
    } else if w == 4 {
        "Friday"
    } else if w == 5 {
        "Saturday"
    } else {
        "Sunday"
    };
    String::from_str(name)
}

/// The weekday name of a `YYYY-MM-DD` day key.
pub fn day_of_week(date: &str) -> (r: Result<String, TrendError>)
    ensures
        match weekday_key(date@) {
            Some(name) => r is Ok && r->Ok_0@ == name,
            None => r is Err && r->Err_0.is_invalid_date(date@),
        },
{
    match parse_date(date, "%Y-%m-%d") {
        Some(d) => {
            let w = weekday_number(d);
            Ok(weekday_string(w))
        },
        None => Err(TrendError::InvalidDateFormat(String::from_str(date))),
    }
}

} // verus!
