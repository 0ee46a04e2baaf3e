//! The calendar, as far as the library needs it: the current time, the date
//! that an instant falls on in a zone of fixed offset, and the instant at
//! which a date begins there. All of it is computed by `chrono` and trusted.

use crate::aoc::Timestamp;
use chrono::{DateTime, Datelike, FixedOffset, NaiveDate, TimeZone, Utc};
use vstd::prelude::*;

verus! {

/// First and last year that a date of the calendar can lie in.
pub const MIN_CALENDAR_YEAR: i32 = -262_143;

pub const MAX_CALENDAR_YEAR: i32 = 262_142;

/// Whether a zone may lie `offset_seconds` east of UTC: less than a day
/// either way.
pub open spec fn is_zone_offset(offset_seconds: int) -> bool {
    -86_400 < offset_seconds < 86_400
}

/// Year and month of the date on which the instant `timestamp` falls in the
/// zone `offset_seconds` east of UTC; nothing for an instant beyond the
/// calendar or an offset that is none.
pub uninterp spec fn zoned_year_month_of(timestamp: Timestamp, offset_seconds: i32) -> Option<
    (i32, u32),
>;

/// The instant at which the given day begins in the zone `offset_seconds`
/// east of UTC; nothing where the calendar has no such day.
pub uninterp spec fn zoned_midnight_of(year: i32, month: u32, day: u32, offset_seconds: i32) -> Option<
    Timestamp,
>;

/// Whether a year and a month are such as the calendar gives: the month
/// numbered from one, the year within one of the calendar's bounds.
pub open spec fn is_year_month(year: i32, month: u32) -> bool {
    &&& 1 <= month <= 12
    &&& MIN_CALENDAR_YEAR - 1 <= year <= MAX_CALENDAR_YEAR + 1
}

/// Reads the clock: `chrono::Utc::now` as seconds since the epoch, with the
/// year and month that `DateTime::with_timezone` finds for it in the zone
/// of `FixedOffset::east_opt(offset_seconds)`. Each reading may differ from
/// the one before. Trusted: the month is numbered from one and the year
/// lies within the calendar. An offset that is none is left out, as there
/// is no zone to look at the clock from.
#[verifier::external_body]
pub(crate) fn read_clock(offset_seconds: i32) -> (reading: (Timestamp, i32, u32))
    requires
        is_zone_offset(offset_seconds as int),
    ensures
        is_year_month(reading.1, reading.2),
{
    let now = Utc::now();
    let local = now.with_timezone(&FixedOffset::east_opt(offset_seconds).unwrap());
    (now.timestamp(), local.year(), local.month())
}

/// Year and month of an instant in a zone of fixed offset, by
/// `DateTime::from_timestamp`, `FixedOffset::east_opt` and
/// `DateTime::with_timezone`. Trusted: the result depends on the arguments
/// alone, and a month is numbered from one and a year lies within the
/// calendar.
#[verifier::external_body]
pub(crate) fn zoned_year_month(timestamp: Timestamp, offset_seconds: i32) -> (found: Option<
    (i32, u32),
>)
    ensures
        found == zoned_year_month_of(timestamp, offset_seconds),
        found matches Some((year, month)) ==> is_year_month(year, month),
{
    let zone = FixedOffset::east_opt(offset_seconds)?;
    let local = DateTime::from_timestamp(timestamp, 0)?.with_timezone(&zone);
    Some((local.year(), local.month()))
}

/// The start of a day in a zone of fixed offset, in seconds since the
/// epoch, by `NaiveDate::from_ymd_opt`, `NaiveDate::and_hms_opt`,
/// `TimeZone::from_local_datetime` and `DateTime::timestamp`. Trusted: the
/// result depends on the arguments alone.
#[verifier::external_body]
pub(crate) fn zoned_midnight(year: i32, month: u32, day: u32, offset_seconds: i32) -> (start:
    Option<Timestamp>)
    ensures
        start == zoned_midnight_of(year, month, day, offset_seconds),
{
    let zone = FixedOffset::east_opt(offset_seconds)?;
    let local = NaiveDate::from_ymd_opt(year, month, day)?.and_hms_opt(0, 0, 0)?;
    zone.from_local_datetime(&local).single().map(|start| start.timestamp())
}

/// The pattern after which the capture time of a leaderboard is written.
pub open spec fn capture_pattern() -> Seq<char> {
    "%F %T %Z"@
}

/// The instant that `text` names after RFC 3339, in seconds since the
/// epoch, and the offset from UTC, in seconds, that the text gives; nothing
/// for a text that names none.
pub uninterp spec fn rfc3339_instant_of(text: Seq<char>) -> Option<(Timestamp, i32)>;

/// Date, time and offset of the instant `timestamp` as seen in the zone
/// `offset_seconds` east of UTC; nothing for an instant beyond the calendar
/// or an offset that is none.
pub uninterp spec fn zoned_text_of(timestamp: Timestamp, offset_seconds: i32) -> Option<Seq<char>>;

/// Date and time of the instant `timestamp` as seen in UTC, written after
/// `pattern`; nothing for an instant beyond the calendar.
pub uninterp spec fn utc_text_of(timestamp: Timestamp, pattern: Seq<char>) -> Option<Seq<char>>;

/// Reads an instant written after RFC 3339, by
/// `DateTime::parse_from_rfc3339`, `DateTime::timestamp` and
/// `FixedOffset::local_minus_utc`. Trusted: the result depends on the text
/// alone, and an offset read is that of a zone.
#[verifier::external_body]
pub(crate) fn parse_rfc3339(text: &str) -> (read: Option<(Timestamp, i32)>)
    ensures
        read == rfc3339_instant_of(text@),
        read matches Some((_, offset_seconds)) ==> is_zone_offset(offset_seconds as int),
{
    match DateTime::parse_from_rfc3339(text) {
        Ok(instant) => Some((instant.timestamp(), instant.offset().local_minus_utc())),
        Err(_) => None,
    }
}

/// Writes an instant as seen in a zone of fixed offset, by
/// `DateTime::from_timestamp`, `FixedOffset::east_opt`,
/// `DateTime::with_timezone` and the `Display` of the outcome. Trusted: the
/// result depends on the arguments alone.
#[verifier::external_body]
pub(crate) fn zoned_text(timestamp: Timestamp, offset_seconds: i32) -> (text: Option<String>)
    ensures
        text matches Some(written) ==> zoned_text_of(timestamp, offset_seconds) == Some(written@),
        text is None ==> zoned_text_of(timestamp, offset_seconds) is None,
{
    let zone = FixedOffset::east_opt(offset_seconds)?;
    Some(DateTime::from_timestamp(timestamp, 0)?.with_timezone(&zone).to_string())
}

/// Writes an instant as seen in UTC after the pattern of capture times, by
/// `DateTime::from_timestamp` and `DateTime::format`. Trusted: the result
/// depends on the arguments alone. Any other pattern is left out, as
/// `format` fails on a pattern that it does not know.
#[verifier::external_body]
pub(crate) fn utc_text(timestamp: Timestamp, pattern: &str) -> (text: Option<String>)
    requires
        pattern@ == capture_pattern(),
    ensures
        text matches Some(written) ==> utc_text_of(timestamp, pattern@) == Some(written@),
        text is None ==> utc_text_of(timestamp, pattern@) is None,
{
    Some(DateTime::from_timestamp(timestamp, 0)?.format(pattern).to_string())
}

} // verus!
