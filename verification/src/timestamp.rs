//! Timestamps of indexed transactions, and the dates that they stand for.

use crate::calendar::{
    day_number, days_before_month, iso_text, law_iso_text_has_thirty_characters, law_iso_text_rises, text_at_most,
};
use vstd::prelude::*;

verus! {

/// 9999-12-31 23:59:59, the latest time that the consumers of the index support.
pub const MAX_TIMESTAMP_SECS: i64 = 253_402_300_799;

/// The format in which dates are written, after ISO 8601 with nanoseconds.
pub const ISO_FORMAT: &'static str = "%Y-%m-%dT%H:%M:%S%.9fZ";

/// A protobuf timestamp: seconds and nanoseconds since the Unix epoch.
#[derive(Clone, Copy, Debug, PartialEq, Eq, Structural)]
pub struct Timestamp {
    pub seconds: i64,
    pub nanos: i32,
}

#[verifier::external_type_specification]
#[verifier::external_body]
pub struct ExNaiveDateTime(chrono::NaiveDateTime);

/// Whether `chrono` has a date for a number of seconds and nanoseconds since the Unix epoch: the
/// date lies between the years -262143 and 262142, and the nanoseconds make up less than a second,
/// or less than two at the end of a minute, where they stand for a leap second.
pub open spec fn has_date_time(secs: int, nsecs: int) -> bool {
    &&& -8_334_601_228_800 <= secs <= 8_210_266_876_799
    &&& 0 <= nsecs
    &&& nsecs < 1_000_000_000 || (nsecs < 2_000_000_000 && secs % 60 == 59)
}

/// The date and time that `chrono::NaiveDateTime::from_timestamp_opt` gives.
pub uninterp spec fn date_time_of(secs: i64, nsecs: u32) -> Option<chrono::NaiveDateTime>;

/// `chrono::NaiveDateTime::from_timestamp_opt` gives the date and time that lies a number of
/// seconds and nanoseconds after the Unix epoch, which is named here, and nothing if there is none
/// within its range.
#[allow(deprecated)]
pub assume_specification[ chrono::NaiveDateTime::from_timestamp_opt ](
    secs: i64,
    nsecs: u32,
) -> (date_time: Option<chrono::NaiveDateTime>)
    ensures
        date_time == date_time_of(secs, nsecs),
        date_time is Some == has_date_time(secs as int, nsecs as int),
;

/// `chrono::NaiveDateTime::format` writes a date and time in a format. It is only asked for the one
/// format of this module, and the text is stated for the seconds and nanoseconds that give the date
/// and time: the date of the proleptic Gregorian calendar, with at least four digits for the year and
/// its sign if it does not lie between 0 and 9999, and the time of day down to nine digits of the
/// second, where a leap second counts as the sixtieth.
#[verifier::external_body]
fn format_date_time(date_time: &chrono::NaiveDateTime, format: &str) -> (text: String)
    requires
        format@ == ISO_FORMAT@,
    ensures
        forall|secs: i64, nsecs: u32| #[trigger]
            date_time_of(secs, nsecs) == Some(*date_time) ==> text@ == iso_text(
                secs as int,
                nsecs as int,
            ),
{
    date_time.format(format).to_string()
}

/// A timestamp, or the latest supported one if it lies beyond.
pub open spec fn clamped(ts: Timestamp) -> Timestamp {
    if ts.seconds >= MAX_TIMESTAMP_SECS {
        Timestamp { seconds: MAX_TIMESTAMP_SECS, nanos: 0 }
    } else {
        ts
    }
}

/// Brings a timestamp into the supported range.
pub fn clamp_timestamp(ts: &Timestamp) -> (result: Timestamp)
    ensures
        result == clamped(*ts),
{
    if ts.seconds >= MAX_TIMESTAMP_SECS {
        Timestamp { seconds: MAX_TIMESTAMP_SECS, nanos: 0 }
    } else {
        *ts
    }
}

/// The date and time of a timestamp, which belongs to the transaction of the given version. A time
/// beyond the supported range becomes the latest supported one.
#[allow(deprecated)]
pub fn parse_timestamp(ts: &Timestamp, version: i64) -> (date_time: chrono::NaiveDateTime)
    requires
        has_date_time(clamped(*ts).seconds as int, clamped(*ts).nanos as int),
    ensures
        Some(date_time) == date_time_of(clamped(*ts).seconds, clamped(*ts).nanos as u32),
{
    let final_ts = clamp_timestamp(ts);
    chrono::NaiveDateTime::from_timestamp_opt(final_ts.seconds, final_ts.nanos as u32).unwrap()
}

/// Writes the date and time of a timestamp in ISO format.
pub fn timestamp_to_iso(timestamp: &Timestamp) -> (text: String)
    requires
        has_date_time(clamped(*timestamp).seconds as int, clamped(*timestamp).nanos as int),
    ensures
        text@ == iso_text(
            clamped(*timestamp).seconds as int,
            clamped(*timestamp).nanos as int,
        ),
{
    let date_time = parse_timestamp(timestamp, 0);
    format_date_time(&date_time, ISO_FORMAT)
}

/// Every timestamp that a protobuf message may hold from the year 1 on has a date and time.
pub proof fn law_valid_timestamps_have_dates(ts: Timestamp)
    requires
        -62_135_596_800 <= ts.seconds,
        0 <= ts.nanos < 1_000_000_000,
    ensures
        has_date_time(clamped(ts).seconds as int, clamped(ts).nanos as int),
{
}

/// From the year 1 on, timestamps that do not fall have texts that do not fall, and every text has 30
/// characters, with a point before the nine digits of the fraction and a `Z` at the end.
pub proof fn law_iso_texts_rise_with_timestamps(a: Timestamp, b: Timestamp)
    requires
        -62_135_596_800 <= a.seconds,
        0 <= a.nanos < 1_000_000_000,
        -62_135_596_800 <= b.seconds,
        0 <= b.nanos < 1_000_000_000,
        a.seconds < b.seconds || (a.seconds == b.seconds && a.nanos <= b.nanos),
    ensures
        ({
            let text_a = iso_text(clamped(a).seconds as int, clamped(a).nanos as int);
            let text_b = iso_text(clamped(b).seconds as int, clamped(b).nanos as int);
            &&& text_at_most(text_a, text_b)
            &&& text_a.len() == 30 && text_a[19] == '.' && text_a[29] == 'Z'
            &&& text_b.len() == 30 && text_b[19] == '.' && text_b[29] == 'Z'
        }),
{
    let (secs_a, nanos_a) = (clamped(a).seconds as int, clamped(a).nanos as int);
    let (secs_b, nanos_b) = (clamped(b).seconds as int, clamped(b).nanos as int);
    law_iso_text_has_thirty_characters(secs_a, nanos_a);
    law_iso_text_has_thirty_characters(secs_b, nanos_b);
    if secs_a < secs_b || nanos_a < nanos_b {
        law_iso_text_rises(secs_a, nanos_a, secs_b, nanos_b);
    }
}

/// Timestamps at or beyond the latest supported one all become the latest, earlier ones are kept,
/// and bringing a timestamp into range twice changes nothing more.
pub proof fn law_clamping(ts: Timestamp)
    ensures
        clamped(ts).seconds <= MAX_TIMESTAMP_SECS,
        ts.seconds < MAX_TIMESTAMP_SECS ==> clamped(ts) == ts,
        ts.seconds >= MAX_TIMESTAMP_SECS ==> clamped(ts) == (Timestamp {
            seconds: MAX_TIMESTAMP_SECS,
            nanos: 0,
        }),
        clamped(clamped(ts)) == clamped(ts),
{
}

/// The latest supported second is the last of the year 9999.
pub proof fn law_the_latest_second_ends_the_year_9999()
    ensures
        MAX_TIMESTAMP_SECS + 1 == 86_400 * day_number(10_000, 1, 1),
        MAX_TIMESTAMP_SECS / 86_400 == day_number(9_999, 12, 31),
{
    reveal_with_fuel(days_before_month, 13);
}

/// Dates are written as year, month, day, hour, minute, second and nanoseconds.
pub proof fn law_the_format_is_iso()
    ensures
        ISO_FORMAT@ == "%Y-%m-%dT%H:%M:%S%.9fZ"@,
{
}

} // verus!
