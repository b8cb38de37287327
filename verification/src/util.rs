//! Timestamps: seconds since 1970-01-01T00:00:00Z, and their text forms.

use crate::error::Error;
use time::format_description::well_known::Rfc3339;
use time::OffsetDateTime;
use vstd::prelude::*;

verus! {

pub const SECONDS_PER_DAY: i64 = 86_400;

/// 0000-01-01T00:00:00Z.
pub const MIN_TIMESTAMP: i64 = -62_167_219_200;

/// 9999-12-31T23:59:59Z.
pub const MAX_TIMESTAMP: i64 = 253_402_300_799;

/// Whether the timestamp lies in the years 0000 to 9999, the range RFC 3339 can write.
pub open spec fn writable(secs: i64) -> bool {
    MIN_TIMESTAMP <= secs <= MAX_TIMESTAMP
}

/// The UTC calendar day of a timestamp, counted from 1970-01-01 (day 0).
pub open spec fn utc_day(secs: int) -> int {
    secs / 86_400
}

/// The RFC 3339 text that the `time` crate writes for a timestamp in UTC.
pub uninterp spec fn rfc3339_text(secs: i64) -> Seq<char>;

/// The timestamp that the `time` crate reads from an RFC 3339 text, if it accepts the text.
pub uninterp spec fn rfc3339_seconds(text: Seq<char>) -> Option<i64>;

/// The text that the `time` crate shows for the UTC calendar date of a timestamp.
pub uninterp spec fn calendar_date_text(secs: i64) -> Seq<char>;

/// The UTC calendar year and month (1 to 12) of a timestamp, as the `time` crate computes them.
pub uninterp spec fn calendar_month(secs: i64) -> (i32, u8);

/// `time::OffsetDateTime::from_unix_timestamp` followed by `format` with `Rfc3339`.
/// Trusted: the two succeed together exactly on the years 0000 to 9999, and the
/// text is a function of the timestamp alone.
#[verifier::external_body]
fn format_rfc3339(secs: i64) -> (res: Option<String>)
    ensures
        res is Some <==> writable(secs),
        res matches Some(s) ==> s@ == rfc3339_text(secs),
{
    OffsetDateTime::from_unix_timestamp(secs).ok()?.format(&Rfc3339).ok()
}

/// `time::OffsetDateTime::parse` with `Rfc3339`, then `unix_timestamp`.
/// Trusted: the outcome is a function of the text alone.
#[verifier::external_body]
fn parse_rfc3339(text: &str) -> (res: Option<i64>)
    ensures
        res == rfc3339_seconds(text@),
{
    Some(OffsetDateTime::parse(text, &Rfc3339).ok()?.unix_timestamp())
}

/// `time::OffsetDateTime::from_unix_timestamp`, then `date` and its `Display`.
/// Trusted: inside the years 0000 to 9999 the conversion succeeds, and the text is
/// a function of the timestamp alone.
#[verifier::external_body]
fn format_calendar_date(secs: i64) -> (res: Option<String>)
    requires
        writable(secs),
    ensures
        res is Some,
        res matches Some(s) ==> s@ == calendar_date_text(secs),
{
    Some(OffsetDateTime::from_unix_timestamp(secs).ok()?.date().to_string())
}

/// `time::OffsetDateTime::from_unix_timestamp`, then `year` and `month`.
/// Trusted: inside the years 0000 to 9999 the conversion succeeds, and the pair is
/// a function of the timestamp alone.
#[verifier::external_body]
fn year_and_month(secs: i64) -> (res: Option<(i32, u8)>)
    requires
        writable(secs),
    ensures
        res == Some(calendar_month(secs)),
{
    let t = OffsetDateTime::from_unix_timestamp(secs).ok()?;
    Some((t.year(), u8::from(t.month())))
}

/// `time::OffsetDateTime::now_utc`, then `unix_timestamp`: the clock, of which nothing is known.
#[verifier::external_body]
fn clock_seconds() -> i64 {
    OffsetDateTime::now_utc().unix_timestamp()
}

/// The current time, in whole seconds.
pub fn now_utc() -> i64 {
    clock_seconds()
}

/// Writes a timestamp as RFC 3339 text in UTC.
pub fn iso(secs: i64) -> (res: Result<String, Error>)
    ensures
        res is Ok <==> writable(secs),
        res matches Ok(s) ==> s@ == rfc3339_text(secs),
        res is Err ==> res == Err::<String, Error>(Error::OutOfRange),
{
    match format_rfc3339(secs) {
        Some(s) => Ok(s),
        None => Err(Error::OutOfRange),
    }
}

/// What `parse_iso` makes of the outcome of reading a text.
pub open spec fn checked_timestamp(read: Option<i64>) -> Result<i64, Error> {
    match read {
        Some(secs) => if writable(secs) {
            Ok(secs)
        } else {
            Err(Error::OutOfRange)
        },
        None => Err(Error::Parse),
    }
}

/// Accepts a timestamp that was read from text if it can be written again.
pub fn check_timestamp(read: Option<i64>) -> (res: Result<i64, Error>)
    ensures
        res == checked_timestamp(read),
{
    match read {
        Some(secs) => {
            if MIN_TIMESTAMP <= secs && secs <= MAX_TIMESTAMP {
                Ok(secs)
            } else {
                Err(Error::OutOfRange)
            }
        },
        None => Err(Error::Parse),
    }
}

/// The timestamp that the `time` crate reads from an RFC 3339 text, unchecked.
pub fn read_timestamp(s: &str) -> (res: Option<i64>)
    ensures
        res == rfc3339_seconds(s@),
{
    parse_rfc3339(s)
}

/// Reads an RFC 3339 text as a timestamp in whole seconds.
pub fn parse_iso(s: &str) -> (res: Result<i64, Error>)
    ensures
        res == checked_timestamp(rfc3339_seconds(s@)),
{
    check_timestamp(parse_rfc3339(s))
}

/// The UTC calendar day of a timestamp.
pub fn day_of(secs: i64) -> (day: i64)
    ensures
        day == utc_day(secs as int),
{
    if secs >= 0 {
        secs / SECONDS_PER_DAY
    } else {
        (secs + 1) / SECONDS_PER_DAY - 1
    }
}

/// Midnight at the start of a UTC calendar day, where that is a timestamp that can be written.
pub fn day_start(day: i64) -> (res: Option<i64>)
    ensures
        res matches Some(secs) ==> secs == day * 86_400 && writable(secs) && utc_day(secs as int) == day,
        res is None <==> !(MIN_TIMESTAMP <= day * 86_400 <= MAX_TIMESTAMP),
{
    if day < -719_528 || day > 2_932_896 {
        None
    } else {
        Some(day * SECONDS_PER_DAY)
    }
}

/// The date of a UTC calendar day as text, where the day lies in the years 0000 to 9999.
pub fn day_text(day: i64) -> (res: Result<String, Error>)
    ensures
        res is Ok <==> MIN_TIMESTAMP <= day * 86_400 <= MAX_TIMESTAMP,
        res matches Ok(s) ==> s@ == calendar_date_text((day * 86_400) as i64),
        res is Err ==> res == Err::<String, Error>(Error::OutOfRange),
{
    match day_start(day) {
        Some(secs) => Ok(format_calendar_date(secs).unwrap()),
        None => Err(Error::OutOfRange),
    }
}

/// The UTC calendar year and month of a timestamp in the years 0000 to 9999.
pub fn month_of(secs: i64) -> (res: Result<(i32, u8), Error>)
    ensures
        res == if writable(secs) {
            Ok::<(i32, u8), Error>(calendar_month(secs))
        } else {
            Err::<(i32, u8), Error>(Error::OutOfRange)
        },
{
    if MIN_TIMESTAMP <= secs && secs <= MAX_TIMESTAMP {
        Ok(year_and_month(secs).unwrap())
    } else {
        Err(Error::OutOfRange)
    }
}

} // verus!
