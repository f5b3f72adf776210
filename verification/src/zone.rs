//! Calendar months of a time zone.

use jiff::civil::DateTime;
use jiff::tz::TimeZone;
use jiff::{Timestamp, ToSpan, Unit};
use vstd::prelude::*;

verus! {

/// `jiff::tz::TimeZone`, the rules by which a region sets its clocks.
/// Nothing is known of its inside.
#[verifier::external_type_specification]
#[verifier::external_body]
pub struct ExTimeZone(TimeZone);

/// What a time zone holds for the instants that the calendar reaches: for
/// each instant, in seconds after the Unix epoch, the calendar year and
/// month in which it falls there.
pub uninterp spec fn zone_months(tz: TimeZone) -> Map<i64, (i16, i8)>;

/// What a time zone holds for the months that the calendar reaches: for each
/// `(year, month)`, the first instant of the month there, in seconds after
/// the Unix epoch, and the number of seconds until the first instant of the
/// month after it.
pub uninterp spec fn zone_spans(tz: TimeZone) -> Map<(i16, i8), (i64, i64)>;

/// The calendar year and month in which the instant `secs` seconds after the
/// Unix epoch falls in a time zone; `None` for an instant that the calendar
/// does not reach.
pub open spec fn zone_month(tz: TimeZone, secs: i64) -> Option<(i16, i8)> {
    if zone_months(tz).contains_key(secs) {
        Some(zone_months(tz)[secs])
    } else {
        None
    }
}

/// The first instant of a calendar month in a time zone and the number of
/// seconds of the month; `None` where either is out of the calendar's
/// reach.
pub open spec fn zone_month_span(tz: TimeZone, year: i16, month: i8) -> Option<(i64, i64)> {
    if zone_spans(tz).contains_key((year, month)) {
        Some(zone_spans(tz)[(year, month)])
    } else {
        None
    }
}

/// The seconds after the Unix epoch that a timestamp text stands for; `None`
/// for a text that is no timestamp.
pub uninterp spec fn timestamp_seconds(text: Seq<char>) -> Option<i64>;

/// Calls `Timestamp::from_second` and `TimeZone::to_datetime`, and hands out
/// the year and month of the civil time; `None` where `from_second` refuses
/// the instant. The contract claims that the answer is a function of the
/// zone and the instant.
#[verifier::external_body]
pub(crate) fn civil_month(tz: &TimeZone, secs: i64) -> (found: Option<(i16, i8)>)
    ensures
        found is Some <==> zone_months(*tz).contains_key(secs),
        found matches Some(month) ==> month == zone_months(*tz)[secs],
{
    match Timestamp::from_second(secs) {
        Ok(ts) => {
            let dt = tz.to_datetime(ts);
            Some((dt.year(), dt.month()))
        },
        Err(_) => None,
    }
}

/// Builds the first midnight of the month with `DateTime::new` and
/// `TimeZone::to_zoned`, adds one month with `Zoned::checked_add`, and
/// measures the seconds between the two with `Zoned::until`; `None` where
/// one of the four refuses. The contract claims that the answer is a
/// function of the zone and the month.
#[verifier::external_body]
pub(crate) fn month_span(tz: &TimeZone, year: i16, month: i8) -> (found: Option<(i64, i64)>)
    ensures
        found is Some <==> zone_spans(*tz).contains_key((year, month)),
        found matches Some(span) ==> span == zone_spans(*tz)[(year, month)],
{
    let start = tz.to_zoned(DateTime::new(year, month, 1, 0, 0, 0, 0).ok()?).ok()?;
    let end = start.checked_add(1.month()).ok()?;
    let seconds = start.until((Unit::Second, &end)).ok()?.get_seconds();
    Some((start.timestamp().as_second(), seconds))
}

/// Calls `str::parse::<Timestamp>` and takes `Timestamp::as_second` of the
/// outcome; `None` where the text does not parse. The contract claims that
/// the answer is a function of the text.
#[verifier::external_body]
pub(crate) fn parse_timestamp(text: &str) -> (found: Option<i64>)
    ensures
        found == timestamp_seconds(text@),
{
    match text.parse::<Timestamp>() {
        Ok(ts) => Some(ts.as_second()),
        Err(_) => None,
    }
}

} // verus!
