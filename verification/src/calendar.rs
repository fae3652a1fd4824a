//! Calendar date-times in UTC, from the Unix epoch onward.
//!
//! A [`UtcDateTime`] is a second of the proleptic Gregorian calendar at or
//! after 1970-01-01 00:00:00 UTC. Its position on the time line, the count of
//! seconds since the epoch, is defined here by [`Civil::epoch_seconds`] and
//! computed by verified code. The opposite direction, from a count of seconds
//! to calendar fields, is asked of `chrono`; what comes back is accepted only
//! if it denotes a real calendar second whose count is the one that was asked
//! for.

use vstd::prelude::*;

verus! {

/// Seconds in a day.
pub const SECONDS_PER_DAY: i64 = 86_400;

/// Whether `year` has a 29th of February.
pub open spec fn is_leap_year(year: int) -> bool {
    year % 4 == 0 && (year % 100 != 0 || year % 400 == 0)
}

/// The number of days of `year`.
pub open spec fn days_in_year(year: int) -> int {
    if is_leap_year(year) {
        366
    } else {
        365
    }
}

/// The number of days of month `month` (1 to 12) of `year`.
pub open spec fn days_in_month(year: int, month: int) -> int {
    if month == 2 {
        if is_leap_year(year) {
            29
        } else {
            28
        }
    } else if month == 4 || month == 6 || month == 9 || month == 11 {
        30
    } else {
        31
    }
}

/// The number of days from 1970-01-01 to the first day of `year`.
pub open spec fn days_before_year(year: int) -> int
    decreases year,
{
    if year <= 1970 {
        0
    } else {
        days_before_year(year - 1) + days_in_year(year - 1)
    }
}

/// The number of days from the first day of `year` to the first day of its
/// month `month`.
pub open spec fn days_before_month(year: int, month: int) -> int
    decreases month,
{
    if month <= 1 {
        0
    } else {
        days_before_month(year, month - 1) + days_in_month(year, month - 1)
    }
}

/// The number of years in `1..=year` that are leap years, for `year >= 0`.
pub open spec fn leap_years_through(year: int) -> int {
    year / 4 - year / 100 + year / 400
}

/// Calendar fields as mathematical integers: the model of a [`UtcDateTime`],
/// and of any six numbers that claim to be one.
pub struct Civil {
    pub year: int,
    pub month: int,
    pub day: int,
    pub hour: int,
    pub minute: int,
    pub second: int,
}

impl Civil {
    /// The fields name a second of the calendar at or after the epoch: the
    /// month and the day exist, the time of day is below 24:00:00, and there
    /// is no leap second.
    pub open spec fn is_valid(self) -> bool {
        &&& 1970 <= self.year
        &&& 1 <= self.month <= 12
        &&& 1 <= self.day <= days_in_month(self.year, self.month)
        &&& 0 <= self.hour < 24
        &&& 0 <= self.minute < 60
        &&& 0 <= self.second < 60
    }

    /// The number of whole days from 1970-01-01 to this date.
    pub open spec fn epoch_days(self) -> int {
        days_before_year(self.year) + days_before_month(self.year, self.month) + (self.day - 1)
    }

    /// The number of seconds from midnight to this time of day.
    pub open spec fn second_of_day(self) -> int {
        3600 * self.hour + 60 * self.minute + self.second
    }

    /// The number of seconds from 1970-01-01 00:00:00 UTC to this second.
    pub open spec fn epoch_seconds(self) -> int {
        86_400 * self.epoch_days() + self.second_of_day()
    }

    /// Calendar order: by year, month and day, and within a day by the
    /// time of day.
    pub open spec fn precedes(self, other: Civil) -> bool {
        ||| self.year < other.year
        ||| self.year == other.year && self.month < other.month
        ||| self.year == other.year && self.month == other.month && self.day < other.day
        ||| self.year == other.year && self.month == other.month && self.day == other.day
            && self.second_of_day() < other.second_of_day()
    }
}

/// The fields that six machine integers stand for.
pub open spec fn civil_of(fields: (i32, u32, u32, u32, u32, u32)) -> Civil {
    Civil {
        year: fields.0 as int,
        month: fields.1 as int,
        day: fields.2 as int,
        hour: fields.3 as int,
        minute: fields.4 as int,
        second: fields.5 as int,
    }
}

/// The days before a year in closed form.
pub proof fn lemma_days_before_year_closed_form(year: int)
    requires
        1970 <= year,
    ensures
        days_before_year(year) == 365 * (year - 1970) + leap_years_through(year - 1) - 477,
    decreases year,
{
    if year > 1970 {
        lemma_days_before_year_closed_form(year - 1);
    }
}

/// The days before a year grow with the year, by at least the length of
/// each year passed.
pub proof fn lemma_days_before_year_grows(earlier: int, later: int)
    requires
        1970 <= earlier < later,
    ensures
        days_before_year(earlier) + days_in_year(earlier) <= days_before_year(later),
    decreases later,
{
    if later > earlier + 1 {
        lemma_days_before_year_grows(earlier, later - 1);
    }
}

/// The days before a month grow with the month, by at least the length of
/// each month passed, and the twelve months fill the year.
pub proof fn lemma_days_before_month_grows(year: int, earlier: int, later: int)
    requires
        1 <= earlier < later <= 13,
    ensures
        days_before_month(year, earlier) + days_in_month(year, earlier) <= days_before_month(
            year,
            later,
        ),
        days_before_month(year, 13) == days_in_year(year),
        0 <= days_before_month(year, earlier),
    decreases later,
{
    reveal_with_fuel(days_before_month, 14);
    if later > earlier + 1 {
        lemma_days_before_month_grows(year, earlier, later - 1);
    }
}

/// A later second of the calendar lies later on the time line.
pub proof fn lemma_epoch_seconds_increase(a: Civil, b: Civil)
    requires
        a.is_valid(),
        b.is_valid(),
        a.precedes(b),
    ensures
        a.epoch_seconds() < b.epoch_seconds(),
{
    if a.year < b.year {
        lemma_days_before_year_grows(a.year, b.year);
        if a.month < 12 {
            lemma_days_before_month_grows(a.year, a.month, 13);
        } else {
            lemma_days_before_month_grows(a.year, 1, 13);
            reveal_with_fuel(days_before_month, 14);
        }
        lemma_days_before_month_grows(b.year, 1, 13);
        if b.month > 1 {
            lemma_days_before_month_grows(b.year, 1, b.month);
        }
        assert(a.epoch_days() < days_before_year(a.year) + days_in_year(a.year));
        assert(days_before_year(b.year) <= b.epoch_days());
    } else if a.month < b.month {
        lemma_days_before_month_grows(a.year, a.month, b.month);
    }
}

/// Two seconds of the calendar at the same place on the time line are the
/// same second: the count of seconds since the epoch names one date-time.
pub proof fn lemma_epoch_seconds_injective(a: Civil, b: Civil)
    requires
        a.is_valid(),
        b.is_valid(),
        a.epoch_seconds() == b.epoch_seconds(),
    ensures
        a == b,
{
    if a.precedes(b) {
        lemma_epoch_seconds_increase(a, b);
    }
    if b.precedes(a) {
        lemma_epoch_seconds_increase(b, a);
    }
    assert(a.second_of_day() == b.second_of_day());
}

/// No second of the calendar from 1970 on lies before the epoch, and the
/// epoch itself is 1970-01-01 00:00:00.
pub proof fn lemma_epoch_is_origin(a: Civil)
    requires
        a.is_valid(),
    ensures
        0 <= a.epoch_seconds(),
        a.epoch_seconds() == 0 <==> a == (Civil {
            year: 1970,
            month: 1,
            day: 1,
            hour: 0,
            minute: 0,
            second: 0,
        }),
{
    let origin = Civil { year: 1970, month: 1, day: 1, hour: 0, minute: 0, second: 0 };
    assert(origin.epoch_seconds() == 0);
    if a != origin {
        assert(origin.precedes(a));
        lemma_epoch_seconds_increase(origin, a);
    }
}

/// A second of the proleptic Gregorian calendar in UTC, at or after
/// 1970-01-01 00:00:00. Every value names a second that exists: the fields
/// are private and each constructor checks them.
#[derive(Clone, Copy, Debug, PartialEq, Eq)]
pub struct UtcDateTime {
    year: i32,
    month: u32,
    day: u32,
    hour: u32,
    minute: u32,
    second: u32,
}

impl View for UtcDateTime {
    type V = Civil;

    closed spec fn view(&self) -> Civil {
        civil_of((self.year, self.month, self.day, self.hour, self.minute, self.second))
    }
}

/// Decides whether `year` is a leap year.
fn leap_year(year: i64) -> (leap: bool)
    requires
        0 <= year,
    ensures
        leap == is_leap_year(year as int),
{
    year % 4 == 0 && (year % 100 != 0 || year % 400 == 0)
}

/// The length of a month in days.
fn month_length(year: i64, month: u32) -> (days: u32)
    requires
        0 <= year,
        1 <= month <= 12,
    ensures
        days == days_in_month(year as int, month as int),
{
    if month == 2 {
        if leap_year(year) {
            29
        } else {
            28
        }
    } else if month == 4 || month == 6 || month == 9 || month == 11 {
        30
    } else {
        31
    }
}

/// The days of a year that lie before the first of a month.
fn month_offset(year: i64, month: u32) -> (days: i64)
    requires
        0 <= year,
        1 <= month <= 12,
    ensures
        days == days_before_month(year as int, month as int),
        0 <= days <= 341,
{
    let mut days: i64 = 0;
    let mut passed: u32 = 1;
    while passed < month
        invariant
            0 <= year,
            1 <= passed <= month <= 12,
            days == days_before_month(year as int, passed as int),
            0 <= days <= 31 * (passed - 1),
        decreases month - passed,
    {
        let length: u32 = month_length(year, passed);
        days = days + length as i64;
        passed = passed + 1;
    }
    days
}

/// The days from the epoch to the first of January of a year.
fn year_offset(year: i64) -> (days: i64)
    requires
        1970 <= year <= i32::MAX,
    ensures
        days == days_before_year(year as int),
        0 <= days <= 366 * (year - 1970),
{
    proof {
        lemma_days_before_year_closed_form(year as int);
    }
    let last: i64 = year - 1;
    365 * (year - 1970) + (last / 4 - last / 100 + last / 400) - 477
}

impl UtcDateTime {
    #[verifier::type_invariant]
    spec fn names_a_second(self) -> bool {
        self@.is_valid()
    }

    /// The date-time with the given fields, if they name a second of the
    /// calendar from 1970 on; `None` for a month, a day or a time of day that
    /// does not exist, and for a year before 1970.
    pub fn new(year: i32, month: u32, day: u32, hour: u32, minute: u32, second: u32) -> (made:
        Option<UtcDateTime>)
        ensures
            made is Some <==> civil_of((year, month, day, hour, minute, second)).is_valid(),
            made matches Some(datetime) ==> datetime@ == civil_of(
                (year, month, day, hour, minute, second),
            ),
    {
        if year < 1970 || month < 1 || month > 12 || day < 1 {
            return None;
        }
        if hour >= 24 || minute >= 60 || second >= 60 {
            return None;
        }
        if day > month_length(year as i64, month) {
            return None;
        }
        Some(UtcDateTime { year, month, day, hour, minute, second })
    }

    /// The year, 1970 or later.
    pub fn year(&self) -> (year: i32)
        ensures
            year == self@.year,
    {
        self.year
    }

    /// The month of the year, 1 to 12.
    pub fn month(&self) -> (month: u32)
        ensures
            month == self@.month,
    {
        self.month
    }

    /// The day of the month, from 1.
    pub fn day(&self) -> (day: u32)
        ensures
            day == self@.day,
    {
        self.day
    }

    /// The hour of the day, 0 to 23.
    pub fn hour(&self) -> (hour: u32)
        ensures
            hour == self@.hour,
    {
        self.hour
    }

    /// The minute of the hour, 0 to 59.
    pub fn minute(&self) -> (minute: u32)
        ensures
            minute == self@.minute,
    {
        self.minute
    }

    /// The second of the minute, 0 to 59.
    pub fn second(&self) -> (second: u32)
        ensures
            second == self@.second,
    {
        self.second
    }

    /// The number of seconds from 1970-01-01 00:00:00 UTC to this second.
    /// The value also witnesses that its fields are valid.
    pub fn epoch_seconds(&self) -> (secs: i64)
        ensures
            secs == self@.epoch_seconds(),
            self@.is_valid(),
    {
        proof {
            use_type_invariant(self);
        }
        let year: i64 = self.year as i64;
        let days: i64 = year_offset(year) + month_offset(year, self.month) + (self.day as i64 - 1);
        SECONDS_PER_DAY * days + 3600 * (self.hour as i64) + 60 * (self.minute as i64)
            + self.second as i64
    }

    /// Accepts calendar fields computed elsewhere for the instant `secs`
    /// seconds after the epoch: the date-time they name, if they name one and
    /// it lies exactly `secs` seconds after the epoch; `None` otherwise.
    pub fn confirm(secs: i64, fields: Option<(i32, u32, u32, u32, u32, u32)>) -> (accepted: Option<
        UtcDateTime,
    >)
        ensures
            match accepted {
                Some(datetime) => confirmed(secs as int, fields) == Some(datetime@),
                None => confirmed(secs as int, fields) is None,
            },
            accepted matches Some(datetime) ==> datetime@.is_valid() && datetime@.epoch_seconds()
                == secs,
    {
        match fields {
            None => None,
            Some(f) => match UtcDateTime::new(f.0, f.1, f.2, f.3, f.4, f.5) {
                None => None,
                Some(datetime) => if datetime.epoch_seconds() == secs {
                    Some(datetime)
                } else {
                    None
                },
            },
        }
    }

    /// The calendar date-time in UTC that lies `secs` seconds after the
    /// epoch. The fields come from `chrono` and are accepted by
    /// [`UtcDateTime::confirm`]; a negative count, one beyond what `chrono`
    /// represents, and fields that do not count back to `secs` give `None`.
    pub fn from_epoch_seconds(secs: i64) -> (converted: Option<UtcDateTime>)
        ensures
            match converted {
                Some(datetime) => confirmed(secs as int, utc_civil_fields(secs)) == Some(datetime@),
                None => confirmed(secs as int, utc_civil_fields(secs)) is None,
            },
            converted matches Some(datetime) ==> datetime@.is_valid() && datetime@.epoch_seconds()
                == secs && 0 <= secs,
            secs < 0 ==> converted is None,
    {
        if secs < 0 {
            proof {
                if let Some(f) = utc_civil_fields(secs) {
                    if civil_of(f).is_valid() {
                        lemma_epoch_is_origin(civil_of(f));
                    }
                }
            }
            return None;
        }
        UtcDateTime::confirm(secs, chrono_civil_fields(secs))
    }
}

/// What is accepted of calendar fields offered for the instant `secs` seconds
/// after the epoch: the fields themselves where they are valid and count to
/// `secs`, nothing otherwise.
pub open spec fn confirmed(secs: int, fields: Option<(i32, u32, u32, u32, u32, u32)>) -> Option<
    Civil,
> {
    match fields {
        Some(f) => if civil_of(f).is_valid() && civil_of(f).epoch_seconds() == secs {
            Some(civil_of(f))
        } else {
            None
        },
        None => None,
    }
}

/// The calendar fields (year, month, day, hour, minute, second) that
/// `chrono` gives for the instant `secs` seconds after the epoch, or `None`
/// where it has no date-time for it.
pub uninterp spec fn utc_civil_fields(secs: i64) -> Option<(i32, u32, u32, u32, u32, u32)>;

/// Calls `chrono::DateTime::from_timestamp(secs, 0)` and reads the result's
/// year, month, day, hour, minute and second with the getters of `Datelike`
/// and `Timelike`. Nothing is assumed of the numbers but that the same `secs`
/// always gives the same ones: `from_timestamp` and the getters compute from
/// their arguments alone, in UTC, without a clock or a time zone database.
#[verifier::external_body]
fn chrono_civil_fields(secs: i64) -> (fields: Option<(i32, u32, u32, u32, u32, u32)>)
    ensures
        fields == utc_civil_fields(secs),
{
    let moment = chrono::DateTime::from_timestamp(secs, 0)?;
    Some(
        (
            chrono::Datelike::year(&moment),
            chrono::Datelike::month(&moment),
            chrono::Datelike::day(&moment),
            chrono::Timelike::hour(&moment),
            chrono::Timelike::minute(&moment),
            chrono::Timelike::second(&moment),
        ),
    )
}

/// Converting a count of seconds to a date-time and back yields the count:
/// whatever fields are offered for `secs`, a date-time accepted for them lies
/// exactly `secs` seconds after the epoch, `secs` is not negative, and no
/// other valid date-time lies there.
pub proof fn lemma_conversion_round_trip(
    secs: int,
    fields: Option<(i32, u32, u32, u32, u32, u32)>,
    other: Civil,
)
    requires
        confirmed(secs, fields) is Some,
    ensures
        confirmed(secs, fields)->0.is_valid(),
        confirmed(secs, fields)->0.epoch_seconds() == secs,
        0 <= secs,
        other.is_valid() && other.epoch_seconds() == secs ==> other == confirmed(secs, fields)->0,
{
    let accepted = confirmed(secs, fields)->0;
    lemma_epoch_is_origin(accepted);
    if other.is_valid() && other.epoch_seconds() == secs {
        lemma_epoch_seconds_injective(other, accepted);
    }
}

} // verus!
