//! Calendar days and the month axis of a statement.
use vstd::prelude::*;

use crate::text::{digits_value, number_in, parse_number, split, split_chars, lemma_split_nonempty};

verus! {

/// A day of the proleptic Gregorian calendar.
#[derive(Clone, Copy, Debug, PartialEq, Eq, Structural, Hash)]
pub struct Date {
    pub year: i32,
    pub month: u32,
    pub day: u32,
}

pub open spec fn is_leap_year(y: int) -> bool {
    (y % 4 == 0 && y % 100 != 0) || y % 400 == 0
}

pub open spec fn days_in_month(y: int, m: int) -> int {
    if m == 2 {
        if is_leap_year(y) {
            29
        } else {
            28
        }
    } else if m == 4 || m == 6 || m == 9 || m == 11 {
        30
    } else {
        31
    }
}

/// A day that exists in the calendar, within the years that chrono's
/// `NaiveDate` covers.
pub open spec fn is_calendar_day(y: int, m: int, d: int) -> bool {
    &&& -262143 <= y <= 262142
    &&& 1 <= m <= 12
    &&& 1 <= d <= days_in_month(y, m)
}

/// Months counted from January of year zero.
pub open spec fn month_number(y: int, m: int) -> int {
    y * 12 + m - 1
}

impl Date {
    pub open spec fn valid(self) -> bool {
        is_calendar_day(self.year as int, self.month as int, self.day as int)
    }

    pub open spec fn month_of(self) -> int {
        month_number(self.year as int, self.month as int)
    }

    /// The month of this day, counted from January of year zero.
    pub fn month_index(&self) -> (r: i64)
        requires
            self.valid(),
        ensures
            r == self.month_of(),
    {
        self.year as i64 * 12 + self.month as i64 - 1
    }

    /// The first day of a month counted from January of year zero.
    pub fn first_of_month(index: i64) -> (r: Date)
        requires
            0 <= index <= 262142 * 12 + 11,
        ensures
            r.month_of() == index,
            r.day == 1,
            r.valid(),
    {
        let y: i64 = index / 12;
        let m: i64 = index % 12;
        Date { year: y as i32, month: (m + 1) as u32, day: 1 }
    }
}

/// Relies on chrono's `NaiveDate::from_ymd_opt`, which returns a date exactly
/// when the day exists in the proleptic Gregorian calendar and the year lies
/// within `NaiveDate`'s range (`MIN_YEAR..=MAX_YEAR`).
#[verifier::external_body]
fn calendar_day_exists(year: i32, month: u32, day: u32) -> (r: bool)
    ensures
        r == is_calendar_day(year as int, month as int, day as int),
{
    chrono::NaiveDate::from_ymd_opt(year, month, day).is_some()
}

/// A date field `DD/MM/YYYY`: three numbers separated by slashes that name
/// an existing day.
pub open spec fn date_field(f: Seq<char>) -> Option<Date> {
    let p = split(f, '/');
    if p.len() == 3 && number_in(p[0], u32::MAX as int) && number_in(p[1], u32::MAX as int)
        && number_in(p[2], i32::MAX as int) && is_calendar_day(
        digits_value(p[2]) as int,
        digits_value(p[1]) as int,
        digits_value(p[0]) as int,
    ) {
        Some(
            Date {
                year: digits_value(p[2]) as i32,
                month: digits_value(p[1]) as u32,
                day: digits_value(p[0]) as u32,
            },
        )
    } else {
        None
    }
}

/// Reads a date field written `DD/MM/YYYY`.
pub fn parse_date(f: &[char]) -> (r: Option<Date>)
    ensures
        r == date_field(f@),
        r matches Some(d) ==> d.valid() && d.year >= 0,
{
    let p = split_chars(f, '/');
    proof {
        lemma_split_nonempty(f@, '/');
    }
    if p.len() != 3 {
        return None;
    }
    let day = match parse_number(p[0].as_slice(), 0xffff_ffff) {
        Some(v) => v,
        None => {
            return None;
        },
    };
    let month = match parse_number(p[1].as_slice(), 0xffff_ffff) {
        Some(v) => v,
        None => {
            return None;
        },
    };
    let year = match parse_number(p[2].as_slice(), 0x7fff_ffff) {
        Some(v) => v,
        None => {
            return None;
        },
    };
    if calendar_day_exists(year as i32, month as u32, day as u32) {
        Some(Date { year: year as i32, month: month as u32, day: day as u32 })
    } else {
        None
    }
}

/// `a` is the same day as `b` or an earlier one.
pub open spec fn date_le(a: Date, b: Date) -> bool {
    a.year < b.year || (a.year == b.year && (a.month < b.month || (a.month == b.month && a.day <= b.day)))
}

/// An earlier day never lies in a later month.
pub proof fn lemma_date_le_month(a: Date, b: Date)
    requires
        a.valid(),
        b.valid(),
        date_le(a, b),
    ensures
        a.month_of() <= b.month_of(),
{
}

/// Two days of the calendar in the same month share their year and month.
pub proof fn lemma_same_month(a: Date, b: Date)
    requires
        a.valid(),
        b.valid(),
        a.month_of() == b.month_of(),
    ensures
        a.year == b.year,
        a.month == b.month,
{
}

fn date_le_exec(a: &Date, b: &Date) -> (r: bool)
    ensures
        r == date_le(*a, *b),
{
    a.year < b.year || (a.year == b.year && (a.month < b.month || (a.month == b.month && a.day <= b.day)))
}

/// The earliest and the latest of the days.
pub fn date_bounds(dates: &Vec<Date>) -> (r: (Date, Date))
    requires
        dates.len() >= 1,
    ensures
        dates@.contains(r.0),
        dates@.contains(r.1),
        forall|i: int| 0 <= i < dates.len() ==> date_le(r.0, #[trigger] dates[i]) && date_le(dates[i], r.1),
{
    let mut lower = dates[0];
    let mut higher = dates[0];
    let mut i: usize = 1;
    while i < dates.len()
        invariant
            1 <= i <= dates.len(),
            dates@.contains(lower),
            dates@.contains(higher),
            forall|j: int| 0 <= j < i ==> date_le(lower, #[trigger] dates[j]) && date_le(dates[j], higher),
        decreases dates.len() - i,
    {
        let d = dates[i];
        if !date_le_exec(&lower, &d) {
            lower = d;
        }
        if !date_le_exec(&d, &higher) {
            higher = d;
        }
        i = i + 1;
    }
    (lower, higher)
}

} // verus!
