//! Dates of the Gregorian calendar.

use vstd::prelude::*;

verus! {

/// A day of the Gregorian calendar, which is taken to hold at all times.
#[derive(Debug, Clone, Copy, PartialEq, Eq, Structural)]
pub struct Date {
    pub year: i32,
    /// From 1 to 12.
    pub month: u8,
    /// From 1 on.
    pub day: u8,
}

/// Whether `year` is a leap year.
pub open spec fn is_leap_year(year: int) -> bool {
    year % 4 == 0 && (year % 100 != 0 || year % 400 == 0)
}

/// How many days `month` has in `year`.
pub open spec fn days_in_month(year: int, month: int) -> int {
    if month == 2 {
        if is_leap_year(year) {
            29
        } else {
            28
        }
    } else if month == 4 || month == 6 || month == 9 || month == 11 {
        30
    } else {
        31
    }
}

/// Whether there is such a day, with a year of at most four digits.
pub open spec fn is_date(year: int, month: int, day: int) -> bool {
    &&& -9999 <= year <= 9999
    &&& 1 <= month <= 12
    &&& 1 <= day <= days_in_month(year, month)
}

/// What the `time` crate reports of a date that is none.
#[verifier::external_type_specification]
#[verifier::external_body]
pub struct ExComponentRange(world_magnetic_model::time::error::ComponentRange);

/// Makes a date of a year, the number of a month, and a day of the month, and gives them back.
///
/// Calls `Month::try_from` and `Date::from_calendar_date` of the `time` crate. Trusted: they
/// succeed exactly where there is such a day and its year has at most four digits, and the
/// date has the year, the month and the day that it was made of.
#[verifier::external_body]
fn calendar_date(year: i32, month: u8, day: u8) -> (r: Result<
    (i32, u8, u8),
    world_magnetic_model::time::error::ComponentRange,
>)
    ensures
        r is Ok <==> is_date(year as int, month as int, day as int),
        r matches Ok(d) ==> d == (year, month, day),
{
    let month = world_magnetic_model::time::Month::try_from(month)?;
    let date = world_magnetic_model::time::Date::from_calendar_date(year, month, day)?;
    Ok((date.year(), u8::from(date.month()), date.day()))
}

impl Date {
    /// There is such a day.
    pub open spec fn wf(self) -> bool {
        is_date(self.year as int, self.month as int, self.day as int)
    }

    /// The day that these numbers name, where there is one.
    pub fn new(year: i32, month: u8, day: u8) -> (r: Option<Date>)
        ensures
            r is Some <==> is_date(year as int, month as int, day as int),
            r matches Some(date) ==> date == (Date { year, month, day }) && date.wf(),
    {
        match calendar_date(year, month, day) {
            Ok(d) => Some(Date { year: d.0, month: d.1, day: d.2 }),
            Err(_) => None,
        }
    }

    /// The earliest day.
    pub fn min() -> (date: Date)
        ensures
            date.year == -9999,
            date.month == 1,
            date.day == 1,
            date.wf(),
    {
        Date { year: -9999, month: 1, day: 1 }
    }
}

/// What a month is called.
pub open spec fn month_name(month: int) -> Seq<char> {
    if month == 1 {
        "January"@
    } else if month == 2 {
        "February"@
    } else if month == 3 {
        "March"@
    } else if month == 4 {
        "April"@
    } else if month == 5 {
        "May"@
    } else if month == 6 {
        "June"@
    } else if month == 7 {
        "July"@
    } else if month == 8 {
        "August"@
    } else if month == 9 {
        "September"@
    } else if month == 10 {
        "October"@
    } else if month == 11 {
        "November"@
    } else {
        "December"@
    }
}

/// Writes the name of a month.
///
/// Calls `Month::try_from` of the `time` crate and the `Display` of `Month`. Trusted: the
/// twelve months have their English names.
#[verifier::external_body]
pub(crate) fn show_month(month: u8) -> (r: String)
    requires
        1 <= month <= 12,
    ensures
        r@ == month_name(month as int),
{
    world_magnetic_model::time::Month::try_from(month).unwrap().to_string()
}

} // verus!
