//! The wall clock and chrono's calendar. Which day and `HH:MM` an epoch shows
//! depends on the machine's time zone, so those readings get no name: their
//! contracts say what holds of any zone (chrono's offsets are under a day either
//! way). What depends on its arguments alone, the calendar's years, months and
//! dates, is named.

use chrono::{DateTime, Datelike, Local, Months, NaiveDate, Timelike, TimeZone};
use vstd::prelude::*;
use crate::text::digit_of;

verus! {

/// `chrono`'s local-time rendering of `epoch` as `HH:MM` (`DateTime::from_timestamp`,
/// then `with_timezone(&Local)` and `format("%H:%M")`). Claims that it is `Some`
/// exactly for the seconds chrono holds, and then a time of day `%H:%M` writes:
/// an hour 00 to 23 and a minute 00 to 59. Which time of day depends on the
/// machine's time zone and is not stated.
#[verifier::external_body]
pub fn local_clock(epoch: i64) -> (r: Option<String>)
    ensures
        r is Some == in_range(epoch as int),
        r matches Some(s) ==> exists|sec: int| 0 <= sec < 86400 && s@ == #[trigger] hhmm(sec),
{
    DateTime::from_timestamp(epoch, 0).map(|utc| utc.with_timezone(&Local).format("%H:%M").to_string())
}

/// A second of the day as `HH:MM`, hours and minutes two digits each.
pub open spec fn hhmm(sec: int) -> Seq<char> {
    let h = sec / 3600;
    let m = sec % 3600 / 60;
    seq![
        digit_of((h / 10) as nat),
        digit_of((h % 10) as nat),
        ':',
        digit_of((m / 10) as nat),
        digit_of((m % 10) as nat),
    ]
}

/// What a wall-clock time for `epoch` shows: a time of day chrono writes when it
/// holds the second, `??:??` when it does not. Which time of day it is depends on
/// the machine's time zone.
pub open spec fn clock_text(epoch: int, t: Seq<char>) -> bool {
    if in_range(epoch) {
        exists|sec: int| 0 <= sec < 86400 && t == #[trigger] hhmm(sec)
    } else {
        t == seq!['?', '?', ':', '?', '?']
    }
}

/// An epoch's wall-clock `HH:MM`, or `??:??` when chrono cannot place it.
pub fn clock_or_unknown(epoch: i64) -> (r: String)
    ensures
        clock_text(epoch as int, r@),
        r@.len() == 5 && r@[2] == ':',
{
    match local_clock(epoch) {
        Some(s) => s,
        None => {
            let u = String::from_str("??:??");
            proof {
                reveal_strlit("??:??");
                assert(u@ =~= seq!['?', '?', ':', '?', '?']);
            }
            u
        },
    }
}

/// The last second chrono's calendar holds an instant for, 262142-12-31 23:59:59.
pub const LAST_SECOND: i64 = 8_210_266_876_799;

/// `chrono::Local::now().timestamp()`: the clock's reading in unix seconds. It
/// changes from call to call; claimed is only its range. `Local::now` is
/// `Utc::now()` moved into the zone, and `Utc::now` panics on a clock before
/// 1970 and unwraps `DateTime::from_timestamp`, so what it returns lies from 0 to
/// the last second chrono holds.
#[verifier::external_body]
pub fn now() -> (r: i64)
    ensures
        0 <= r <= LAST_SECOND,
{
    Local::now().timestamp()
}

/// Whether chrono can represent an epoch second as an instant: its UTC day, the
/// second's floor over 86400, lies on chrono's calendar.
pub open spec fn in_range(epoch: int) -> bool {
    MIN_DAY <= epoch / 86400 <= MAX_DAY
}

/// Whether `chrono::Local.timestamp_opt(epoch, 0)` names exactly one local
/// instant. `TimeZone::timestamp_opt` gives a single instant exactly when
/// `DateTime::from_timestamp` accepts the second, whatever the zone, so the answer
/// is the one `in_range` names.
#[verifier::external_body]
pub fn local_instant(epoch: i64) -> (r: bool)
    ensures
        r == in_range(epoch as int),
{
    Local.timestamp_opt(epoch, 0).single().is_some()
}

/// Whether `chrono::DateTime::from_timestamp(epoch, 0)` yields an instant. Claims
/// that the answer is the one `in_range` names for the same second, and that a
/// second it accepts lies within ±2·10¹⁴: the function refuses any second whose
/// day number falls outside `i32` before it looks further.
#[verifier::external_body]
pub fn representable(epoch: i64) -> (r: bool)
    ensures
        r == in_range(epoch as int),
        r ==> -200_000_000_000_000 <= epoch <= 200_000_000_000_000,
{
    DateTime::from_timestamp(epoch, 0).is_some()
}

/// The seconds whose local reading chrono gives without running off its calendar:
/// the UTC day lies a day inside chrono's range, so no zone offset (under a day
/// either way) carries the local date past it, where chrono would panic.
pub open spec fn readable(epoch: int) -> bool {
    (MIN_DAY + 1) * 86400 <= epoch < MAX_DAY * 86400
}

/// The local calendar day `epoch` falls on, counted from 1970-01-01 as day 0:
/// `DateTime::from_timestamp(epoch, 0)`, `with_timezone(&Local)`, then
/// `date_naive().to_epoch_days()`. Claims that it is a day chrono can hold, and,
/// as a zone's offset is under a day either way, within a day of the UTC day;
/// which of the three depends on the machine's time zone.
#[verifier::external_body]
fn local_date(epoch: i64) -> (r: i32)
    requires
        readable(epoch as int),
    ensures
        MIN_DAY <= r <= MAX_DAY,
        epoch as int / 86400 - 1 <= r <= epoch as int / 86400 + 1,
{
    match DateTime::from_timestamp(epoch, 0) {
        Some(utc) => utc.with_timezone(&Local).date_naive().to_epoch_days(),
        None => 0,
    }
}

/// The wall clock's day and second of the day at `epoch`: `DateTime::from_timestamp(epoch, 0)`,
/// `with_timezone(&Local)`, then `naive_local()`'s `date().to_epoch_days()` and
/// `num_seconds_from_midnight()`. Claims that the day is one chrono can hold, that
/// the second is under a day (a leap second rides in the nanoseconds), and, as a
/// zone's offset is under a day either way, that the reading lies less than a day
/// from the UTC one; where in that span depends on the machine's time zone.
#[verifier::external_body]
fn local_reading(epoch: i64) -> (r: (i32, u32))
    requires
        readable(epoch as int),
    ensures
        MIN_DAY <= r.0 <= MAX_DAY,
        r.1 < 86400,
        epoch - 86400 < r.0 * 86400 + r.1 < epoch + 86400,
{
    match DateTime::from_timestamp(epoch, 0) {
        Some(utc) => {
            let local = utc.with_timezone(&Local).naive_local();
            (local.date().to_epoch_days(), local.num_seconds_from_midnight())
        },
        None => (0, 0),
    }
}

/// The local calendar day `epoch` falls on, counted from 1970-01-01 as day 0, or
/// `None` for a second too near the end of chrono's calendar to be read.
pub fn local_day(epoch: i64) -> (r: Option<i32>)
    ensures
        r is Some == readable(epoch as int),
        r matches Some(d) ==> MIN_DAY <= d <= MAX_DAY && epoch as int / 86400 - 1 <= d <= epoch as int / 86400 + 1,
{
    if (MIN_DAY as i64 + 1) * 86400 <= epoch && epoch < MAX_DAY as i64 * 86400 {
        Some(local_date(epoch))
    } else {
        None
    }
}

/// A wall-clock reading with no zone: a calendar day counted from 1970-01-01 and
/// the seconds into it.
#[derive(Clone, Copy, Debug, PartialEq, Eq, Structural)]
pub struct Moment {
    pub day: i32,
    pub second: u32,
}

/// A reading chrono can hold: its day on chrono's calendar, its second inside the day.
pub open spec fn well_formed(m: Moment) -> bool {
    MIN_DAY <= m.day <= MAX_DAY && m.second < 86400
}

/// The reading's seconds counted from 1970-01-01 00:00 on its own clock.
pub open spec fn moment_seconds(m: Moment) -> int {
    m.day * 86400 + m.second
}

/// The machine's wall-clock reading of `epoch`, or `None` for a second too near
/// the end of chrono's calendar to be read.
pub fn local_moment(epoch: i64) -> (r: Option<Moment>)
    ensures
        r is Some == readable(epoch as int),
        r matches Some(m) ==> well_formed(m) && epoch - 86400 < moment_seconds(m) < epoch + 86400,
{
    if (MIN_DAY as i64 + 1) * 86400 <= epoch && epoch < MAX_DAY as i64 * 86400 {
        let (day, second) = local_reading(epoch);
        Some(Moment { day, second })
    } else {
        None
    }
}

/// The first day a `chrono::NaiveDate` can hold, -262143-01-01, as days from 1970-01-01.
pub const MIN_DAY: i32 = -96_465_292;

/// The last day a `chrono::NaiveDate` can hold, 262142-12-31, as days from 1970-01-01.
pub const MAX_DAY: i32 = 95_026_236;

/// How `chrono` writes a calendar day: `YYYY-MM-DD`, the year signed past four digits.
pub uninterp spec fn day_name(day: int) -> Seq<char>;

/// `NaiveDate::from_epoch_days(day)` written out with `to_string()` (its `Display`,
/// `%Y-%m-%d`). Claims that the text is the one `day_name` names for that day.
/// `from_epoch_days` has a date for every day from `MIN_DAY` to `MAX_DAY` and no
/// other, so the call is made only there.
#[verifier::external_body]
pub fn day_text(day: i32) -> (r: String)
    requires
        MIN_DAY <= day <= MAX_DAY,
    ensures
        r@ == day_name(day as int),
{
    NaiveDate::from_epoch_days(day).map(|d| d.to_string()).unwrap_or_default()
}

/// The year chrono's calendar gives a day.
pub uninterp spec fn year_on(day: int) -> int;

/// The month, 1 to 12, chrono's calendar gives a day.
pub uninterp spec fn month_on(day: int) -> int;

/// The day chrono's calendar puts at a year, a month and a day of the month, if
/// that date exists.
pub uninterp spec fn calendar_day(year: int, month: int, dom: int) -> Option<int>;

/// The day `months` calendar months after a day, if chrono's calendar reaches it.
pub uninterp spec fn months_after(day: int, months: int) -> Option<int>;

pub open spec fn opt_day(o: Option<i32>) -> Option<int> {
    match o {
        Some(d) => Some(d as int),
        None => None,
    }
}

/// `NaiveDate::from_epoch_days(day)` and its `Datelike::year()`. Claims that it is
/// the year `year_on` names for the day. `from_epoch_days` has a date for every day
/// from `MIN_DAY` to `MAX_DAY`, so the call is made only there.
#[verifier::external_body]
pub fn year_of(day: i32) -> (r: i32)
    requires
        MIN_DAY <= day <= MAX_DAY,
    ensures
        r == year_on(day as int),
{
    match NaiveDate::from_epoch_days(day) {
        Some(d) => d.year(),
        None => 0,
    }
}

/// `NaiveDate::from_epoch_days(day)` and its `Datelike::month()`. Claims that it is
/// the month `month_on` names for the day, and, as chrono documents, that it lies
/// from 1 to 12.
#[verifier::external_body]
pub fn month_of(day: i32) -> (r: u32)
    requires
        MIN_DAY <= day <= MAX_DAY,
    ensures
        r == month_on(day as int),
        1 <= r <= 12,
{
    match NaiveDate::from_epoch_days(day) {
        Some(d) => d.month(),
        None => 1,
    }
}

/// `NaiveDate::from_ymd_opt(year, month, dom)`, as days from 1970-01-01. Claims that
/// the result is the one `calendar_day` names, and that a day it gives is one chrono
/// can hold.
#[verifier::external_body]
pub fn day_of_date(year: i32, month: u32, dom: u32) -> (r: Option<i32>)
    ensures
        opt_day(r) == calendar_day(year as int, month as int, dom as int),
        r matches Some(d) ==> MIN_DAY <= d <= MAX_DAY,
{
    match NaiveDate::from_ymd_opt(year, month, dom) {
        Some(d) => Some(d.to_epoch_days()),
        None => None,
    }
}

/// `NaiveDate::from_epoch_days(day)` moved by `checked_add_months(Months::new(months))`,
/// as days from 1970-01-01. Claims that the result is the one `months_after` names,
/// that a day it gives is one chrono can hold, and, as the source shows (no months
/// return the day itself; more move it into a later calendar month), that it is
/// the day itself for no months and a later day for more.
#[verifier::external_body]
pub fn add_months(day: i32, months: u32) -> (r: Option<i32>)
    requires
        MIN_DAY <= day <= MAX_DAY,
    ensures
        opt_day(r) == months_after(day as int, months as int),
        r matches Some(d) ==> MIN_DAY <= d <= MAX_DAY,
        r matches Some(d) ==> (months == 0 ==> d == day) && (months > 0 ==> day < d),
{
    match NaiveDate::from_epoch_days(day) {
        Some(d) => match d.checked_add_months(Months::new(months)) {
            Some(later) => Some(later.to_epoch_days()),
            None => None,
        },
        None => None,
    }
}

} // verus!
