//! Moments and how they are written.

use crate::model::UtcTime;
use crate::order;
use chrono::{DateTime, Utc};
use vstd::prelude::*;

verus! {

/// Whether a moment lies in the years 0 to 9999 and within a second.
pub open spec fn is_common_time(time: UtcTime) -> bool {
    -62_167_219_200 <= time.seconds <= 253_402_300_799 && time.nanoseconds < 1_000_000_000
}

/// Whether a moment lies before another.
pub open spec fn is_earlier(a: UtcTime, b: UtcTime) -> bool {
    a.seconds < b.seconds || (a.seconds == b.seconds && a.nanoseconds < b.nanoseconds)
}

/// Whether a text is a moment of the years 0 to 9999 that lies before another.
pub open spec fn is_earlier_stamp(s: Seq<char>, time: UtcTime) -> bool {
    exists|then: UtcTime|
        is_common_time(then) && #[trigger] is_earlier(then, time) && rfc3339(
            then.seconds,
            then.nanoseconds,
        ) == Some(s)
}

/// Whether every earlier moment of the years 0 to 9999 is written as a text that comes before.
pub open spec fn follows_earlier_stamps(stamp: Seq<char>, time: UtcTime) -> bool {
    forall|s: Seq<char>| #[trigger] is_earlier_stamp(s, time) ==> order::text_before(s, stamp)
}

/// The current moment, by `Utc::now`. It lies after 1970, within a second, and in the calendar;
/// where the clock of the machine does not, the call panics.
#[verifier::external_body]
pub(crate) fn now() -> (time: UtcTime)
    ensures
        time.seconds >= 0,
        time.nanoseconds < 1_000_000_000,
        rfc3339(time.seconds, time.nanoseconds) is Some,
{
    let now = Utc::now();
    UtcTime { seconds: now.timestamp(), nanoseconds: now.timestamp_subsec_nanos() }
}

/// Whether a moment is what the clock said.
pub closed spec fn is_clock_reading(time: UtcTime) -> bool {
    call_ensures(now, (), time)
}

/// Reads the clock.
pub(crate) fn read_clock() -> (time: UtcTime)
    ensures
        is_clock_reading(time),
        time.seconds >= 0,
        time.nanoseconds < 1_000_000_000,
        rfc3339(time.seconds, time.nanoseconds) is Some,
{
    now()
}

/// A moment in the notation of RFC 3339, where the calendar has it.
pub uninterp spec fn rfc3339(seconds: i64, nanoseconds: u32) -> Option<Seq<char>>;

/// The moment that a text in the notation of RFC 3339 stands for.
pub uninterp spec fn rfc3339_time(s: Seq<char>) -> Option<(i64, u32)>;

/// `DateTime::to_rfc3339` of a moment in UTC, where `DateTime::from_timestamp` finds it in the
/// calendar. In the years 0 to 9999 the year has four digits, `DateTime::parse_from_rfc3339` reads
/// the moment back, and later moments have later texts: every field has a fixed width, and a
/// fraction of a second has no digits, or three, six or nine, before the offset.
#[verifier::external_body]
pub(crate) fn format_time(time: UtcTime) -> (r: Option<String>)
    ensures
        r is Some == rfc3339(time.seconds, time.nanoseconds) is Some,
        r matches Some(s) ==> rfc3339(time.seconds, time.nanoseconds) == Some(s@),
        is_common_time(time) ==> r is Some,
        is_common_time(time) ==> (r matches Some(s) ==> rfc3339_time(s@) == Some(
            (time.seconds, time.nanoseconds),
        )),
        is_common_time(time) ==> (r matches Some(s) ==> follows_earlier_stamps(s@, time)),
{
    DateTime::from_timestamp(time.seconds, time.nanoseconds).map(|moment| moment.to_rfc3339())
}

/// What `chrono` reports when a text stands for no moment.
#[verifier::external_type_specification]
#[verifier::external_body]
pub struct ExTimeError(chrono::ParseError);

/// `DateTime::parse_from_rfc3339`, the moment taken in UTC.
#[verifier::external_body]
pub(crate) fn parse_time(s: &str) -> (r: Result<UtcTime, chrono::ParseError>)
    ensures
        r is Ok == rfc3339_time(s@) is Some,
        r matches Ok(time) ==> rfc3339_time(s@) == Some((time.seconds, time.nanoseconds)),
{
    DateTime::parse_from_rfc3339(s).map(
        |moment| UtcTime {
            seconds: moment.timestamp(),
            nanoseconds: moment.timestamp_subsec_nanos(),
        },
    )
}

} // verus!
