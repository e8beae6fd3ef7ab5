//! Calendar days and local wall-clock readings as plain integers, and the
//! calls into `chrono` that parse, format and read them.

use chrono::{Datelike, TimeZone, Timelike};
use vstd::prelude::*;

use crate::reminder::Wake;

verus! {

/// The day number of `chrono`'s earliest date, -262143-01-01.
pub const FIRST_DAY: i32 = -95746129;

/// The day number of `chrono`'s latest date, 262142-12-31.
pub const LAST_DAY: i32 = 95745399;

/// A bound on the Unix timestamps of the instants that `chrono` represents
/// (their dates lie between years -262143 and 262142).
pub const MAX_INSTANT: i64 = 10_000_000_000_000;

/// Seconds in a day.
pub const SECONDS_PER_DAY: u32 = 86400;

/// A calendar day of the proleptic Gregorian calendar, numbered as `chrono`
/// numbers days from the common era: 0001-01-01 is day 1, and each following
/// day is one more.
#[derive(Clone, Copy, PartialEq, Eq, Structural, Debug)]
pub struct Date {
    pub days: i32,
}

impl Date {
    /// The day lies in the range of dates that `chrono` represents.
    pub open spec fn wf(self) -> bool {
        FIRST_DAY <= self.days <= LAST_DAY
    }

    /// The day with the given number, where `chrono` represents it.
    pub fn from_day_number(days: i32) -> (r: Option<Date>)
        ensures
            r is Some <==> FIRST_DAY <= days <= LAST_DAY,
            r matches Some(d) ==> d.days == days && d.wf(),
    {
        if FIRST_DAY <= days && days <= LAST_DAY {
            Some(Date { days })
        } else {
            None
        }
    }
}

/// A reading of the local clock: the local calendar day, the seconds since
/// local midnight, and the instant as whole seconds since the Unix epoch.
#[derive(Clone, Copy, PartialEq, Eq, Structural, Debug)]
pub struct LocalTime {
    pub date: Date,
    pub seconds: u32,
    pub timestamp: i64,
}

impl LocalTime {
    pub open spec fn wf(self) -> bool {
        self.date.wf() && self.seconds < SECONDS_PER_DAY
    }
}

/// The Unix timestamp that the wall-clock time `seconds` after midnight of
/// day `day` shows in UTC.
pub open spec fn wall_clock_stamp(day: int, seconds: int) -> int {
    (day - 719163) * 86400 + seconds
}

/// The instant `t` lies less than a day from the wall-clock time `seconds`
/// after midnight of day `day`: the local time differs from UTC by an offset
/// below a day, as every offset that `chrono` represents does.
pub open spec fn within_a_day(t: int, day: int, seconds: int) -> bool {
    -86400 < t - wall_clock_stamp(day, seconds) < 86400
}

/// A text that is not a date in the form day.month.year.
#[derive(PartialEq, Eq, Debug)]
pub struct DateParseError {
    pub text: String,
}

#[verifier::external_type_specification]
#[verifier::external_body]
pub struct ExParseError(chrono::ParseError);

/// The day number of the date that `chrono::NaiveDate::parse_from_str`
/// reads from `text` with the format `"%d.%m.%Y"`, or `None` where it fails.
pub uninterp spec fn parsed_dmy(text: Seq<char>) -> Option<i32>;

/// The text that `chrono` writes for the date with the given day number under
/// the format `"%Y-%m-%d"`.
pub uninterp spec fn iso_date_text(day: int) -> Seq<char>;

/// Calls `chrono::NaiveDate::parse_from_str(text, "%d.%m.%Y")` and gives the
/// day number of the date read. The contract claims that the call is a
/// function of `text` (named `parsed_dmy`) and that a date it returns lies in
/// the range of `chrono`'s dates.
#[verifier::external_body]
fn chrono_parse_dmy(text: &str) -> (r: Result<i32, chrono::ParseError>)
    ensures
        match r {
            Ok(d) => parsed_dmy(text@) == Some(d) && FIRST_DAY <= d <= LAST_DAY,
            Err(_) => parsed_dmy(text@) is None,
        },
{
    match chrono::NaiveDate::parse_from_str(text, "%d.%m.%Y") {
        Ok(date) => Ok(date.num_days_from_ce()),
        Err(e) => Err(e),
    }
}

/// Calls `format("%Y-%m-%d")` of `chrono` on the date with the given day
/// number and renders it. The contract claims that the text is a function of
/// the day (named `iso_date_text`).
#[verifier::external_body]
fn chrono_format_iso(day: i32) -> (r: String)
    requires
        FIRST_DAY <= day <= LAST_DAY,
    ensures
        r@ == iso_date_text(day as int),
{
    chrono::NaiveDate::from_num_days_from_ce_opt(day).unwrap().format("%Y-%m-%d").to_string()
}

/// Calls `chrono::Local::now()` and splits the reading into the local day,
/// the seconds since local midnight and the Unix timestamp. The contract
/// claims that the day lies in `chrono`'s range, that the seconds are below a
/// day's, that the timestamp is not before the Unix epoch (`Utc::now` stops
/// on a clock set earlier) and is bounded as every `chrono` instant's is, and
/// that it lies less than a day from the local reading (a `FixedOffset` is
/// below a day). The values themselves depend on the clock.
#[verifier::external_body]
pub(crate) fn local_now() -> (r: LocalTime)
    ensures
        r.wf(),
        0 <= r.timestamp <= MAX_INSTANT,
        within_a_day(r.timestamp as int, r.date.days as int, r.seconds as int),
{
    let now = chrono::Local::now();
    let naive = now.naive_local();
    LocalTime {
        date: Date { days: naive.date().num_days_from_ce() },
        seconds: naive.time().num_seconds_from_midnight(),
        timestamp: now.timestamp(),
    }
}

/// Calls `chrono::Local.from_local_datetime` on the local wall-clock time
/// `seconds` after midnight of the given day and gives the wake-up at the
/// one instant that shows that time, or `None` where the time falls into a
/// gap or a fold of the local time zone. The wake-up keeps the day and time
/// it was asked for; of its instant only what holds in every time zone is
/// claimed: it lies less than a day from the wall-clock time (a
/// `FixedOffset` is below a day) and is bounded as every `chrono` instant is.
/// Which instant it is depends on the machine's time zone.
#[verifier::external_body]
pub(crate) fn local_wake(day: i32, seconds: u32) -> (r: Option<Wake>)
    requires
        FIRST_DAY <= day <= LAST_DAY,
        seconds < SECONDS_PER_DAY,
    ensures
        r matches Some(w) ==> w.day.days == day && w.seconds == seconds && -MAX_INSTANT
            <= w.instant <= MAX_INSTANT && within_a_day(w.instant as int, day as int, seconds as int),
{
    let date = chrono::NaiveDate::from_num_days_from_ce_opt(day).unwrap();
    let time = chrono::NaiveTime::from_num_seconds_from_midnight_opt(seconds, 0).unwrap();
    match chrono::Local.from_local_datetime(&chrono::NaiveDateTime::new(date, time)) {
        chrono::LocalResult::Single(t) => Some(Wake { instant: t.timestamp(), day: Date { days: day }, seconds }),
        chrono::LocalResult::Ambiguous(_, _) => None,
        chrono::LocalResult::None => None,
    }
}

/// Reads a date written as day.month.year, such as `03.05.2018`.
pub fn parse_date(text: &str) -> (r: Result<Date, DateParseError>)
    ensures
        r is Ok <==> parsed_dmy(text@) is Some,
        r matches Ok(d) ==> parsed_dmy(text@) == Some(d.days) && d.wf(),
        r matches Err(e) ==> e.text@ == text@,
{
    match chrono_parse_dmy(text) {
        Ok(days) => Ok(Date { days }),
        Err(_) => {
            let mut t = String::new();
            t.append(text);
            Err(DateParseError { text: t })
        },
    }
}

/// The date written as year-month-day, such as `2018-05-03`.
pub fn format_iso_date(date: Date) -> (r: String)
    requires
        date.wf(),
    ensures
        r@ == iso_date_text(date.days as int),
{
    chrono_format_iso(date.days)
}

} // verus!
