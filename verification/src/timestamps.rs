//! Points in time, as text.
use vstd::prelude::*;

use chrono::TimeZone;

use crate::cells::Number;
use crate::text::trim;

verus! {

use crate::cells::NumberModel;
use crate::text::trimmed;

/// The nanoseconds since the start of 1970 of a point in time that is written by RFC 3339; `None`
/// if the text is no such point in time, or its nanoseconds are out of range.
pub uninterp spec fn rfc3339_nanos_of(text: Seq<char>) -> Option<i64>;

/// The nanoseconds since the start of 1970 of a point in time in UTC that is written in the
/// given form; `None` if the text does not have that form, or the nanoseconds are out of range.
pub uninterp spec fn naive_nanos_of(text: Seq<char>, format: Seq<char>) -> Option<i64>;

/// The point in time so many seconds and nanoseconds after the start of 1970, in the given form;
/// `None` if there is no such point in time.
pub uninterp spec fn utc_text_of(seconds: i64, nanos: u32, format: Seq<char>) -> Option<Seq<char>>;

/// Calls `chrono::DateTime::parse_from_rfc3339`, and `timestamp_nanos_opt` on what it returns. The
/// result is a function of the text; what that function is stays unsaid.
#[verifier::external_body]
fn rfc3339_nanos(text: &str) -> (nanos: Option<i64>)
    ensures
        nanos == rfc3339_nanos_of(text@),
{
    match chrono::DateTime::parse_from_rfc3339(text) {
        Ok(time) => time.timestamp_nanos_opt(),
        Err(_) => None,
    }
}

/// Calls `chrono::NaiveDateTime::parse_from_str`, `chrono::Utc.from_utc_datetime` on what it
/// returns, and `timestamp_nanos_opt` on that. The result is a function of the text and the form;
/// what that function is stays unsaid.
#[verifier::external_body]
fn naive_nanos(text: &str, format: &str) -> (nanos: Option<i64>)
    ensures
        nanos == naive_nanos_of(text@, format@),
{
    match chrono::NaiveDateTime::parse_from_str(text, format) {
        Ok(time) => chrono::Utc.from_utc_datetime(&time).timestamp_nanos_opt(),
        Err(_) => None,
    }
}

/// What a text that may be missing says.
pub open spec fn some_text(text: Option<String>) -> Option<Seq<char>> {
    match text {
        Some(text) => Some(text@),
        None => None,
    }
}

/// Calls `chrono::DateTime::from_timestamp`, and `format` on what it returns. The result is a
/// function of the arguments; what that function is stays unsaid. Only one form is admitted: it is
/// one that `format` knows.
#[verifier::external_body]
fn utc_text(seconds: i64, nanos: u32, format: &str) -> (text: Option<String>)
    requires
        format@ == "%m-%d %H:%M:%S"@,
    ensures
        some_text(text) == utc_text_of(seconds, nanos, format@),
{
    match chrono::DateTime::<chrono::Utc>::from_timestamp(seconds, nanos) {
        Some(time) => Some(time.format(format).to_string()),
        None => None,
    }
}

/// A point in time: the place of its seconds since the start of 1970 in the order of the numbers,
/// or its nanoseconds since then.
#[derive(Debug, Clone, Copy, PartialEq, Eq, Structural)]
pub enum Stamp {
    Seconds(i64),
    Nanos(i64),
}

/// The forms of a point in time without a time zone.
pub open spec fn naive_formats() -> Seq<Seq<char>> {
    seq![
        "%Y-%m-%d %H:%M:%S%.f"@,
        "%Y/%m/%d %H:%M:%S%.f"@,
        "%Y-%m-%dT%H:%M:%S%.f"@,
        "%Y/%m/%dT%H:%M:%S%.f"@,
    ]
}

/// The nanoseconds of a text in the first of the forms, from the given one on, that gives any.
pub open spec fn first_naive_nanos(text: Seq<char>, from: int) -> Option<i64>
    decreases naive_formats().len() - from,
{
    if from >= naive_formats().len() {
        None
    } else {
        match naive_nanos_of(text, naive_formats()[from]) {
            Some(nanos) => Some(nanos),
            None => first_naive_nanos(text, from + 1),
        }
    }
}

/// The nanoseconds of a point in time without a time zone.
pub fn parse_naive_timestamp(text: &str) -> (nanos: Option<i64>)
    ensures
        nanos == first_naive_nanos(text@, 0),
{
    proof {
        reveal_with_fuel(first_naive_nanos, 5);
    }
    match naive_nanos(text, "%Y-%m-%d %H:%M:%S%.f") {
        Some(nanos) => {
            return Some(nanos);
        },
        None => {},
    }
    match naive_nanos(text, "%Y/%m/%d %H:%M:%S%.f") {
        Some(nanos) => {
            return Some(nanos);
        },
        None => {},
    }
    match naive_nanos(text, "%Y-%m-%dT%H:%M:%S%.f") {
        Some(nanos) => {
            return Some(nanos);
        },
        None => {},
    }
    naive_nanos(text, "%Y/%m/%dT%H:%M:%S%.f")
}

/// The point in time that a text names, where `number` is what the text says as a number.
pub open spec fn stamp_of(text: Seq<char>, number: NumberModel) -> Option<Stamp> {
    match number {
        NumberModel::Finite { order, shown } => Some(Stamp::Seconds(order)),
        NumberModel::NotFinite => None,
        NumberModel::Invalid(_) => chosen_stamp(
            rfc3339_nanos_of(text),
            first_naive_nanos(text, 0),
        ),
    }
}

/// The point in time of a text that is no number: with a time zone, if it has one, and else
/// without.
pub open spec fn chosen_stamp(zoned: Option<i64>, naive: Option<i64>) -> Option<Stamp> {
    match (zoned, naive) {
        (Some(nanos), _) => Some(Stamp::Nanos(nanos)),
        (None, Some(nanos)) => Some(Stamp::Nanos(nanos)),
        (None, None) => None,
    }
}

/// The point in time of a text that is no number.
pub fn choose_stamp(zoned: Option<i64>, naive: Option<i64>) -> (stamp: Option<Stamp>)
    ensures
        stamp == chosen_stamp(zoned, naive),
{
    match zoned {
        Some(nanos) => Some(Stamp::Nanos(nanos)),
        None => match naive {
            Some(nanos) => Some(Stamp::Nanos(nanos)),
            None => None,
        },
    }
}

/// The point in time that the text of a cell names, without the white space around it. `number`
/// is what the text without that white space says as a number.
pub fn parse_timestamp_value(text: &str, number: &Number) -> (stamp: Option<Stamp>)
    ensures
        stamp == stamp_of(trimmed(text@), number@),
{
    let text = trim(text);
    match number {
        Number::Finite { order, shown } => Some(Stamp::Seconds(*order)),
        Number::NotFinite => None,
        Number::Invalid(_) => {
            let zoned = rfc3339_nanos(text.as_str());
            let naive = parse_naive_timestamp(text.as_str());
            choose_stamp(zoned, naive)
        },
    }
}

/// Nanoseconds in a second.
pub const NANOS_PER_SECOND: i64 = 1_000_000_000;

/// The seconds and the nanoseconds beyond them, where these may be off by up to a second; `None`
/// if they are off by more.
pub open spec fn settled(seconds: int, nanos: int) -> Option<(int, int)> {
    let (seconds, nanos) = if nanos >= NANOS_PER_SECOND {
        (seconds + 1, nanos - NANOS_PER_SECOND)
    } else if nanos < 0 {
        (seconds - 1, nanos + NANOS_PER_SECOND)
    } else {
        (seconds, nanos)
    };
    if 0 <= nanos < NANOS_PER_SECOND {
        Some((seconds, nanos))
    } else {
        None
    }
}

/// The seconds and the nanoseconds beyond them.
pub fn settle_timestamp(seconds: i64, nanos: i64) -> (result: Option<(i64, u32)>)
    requires
        nanos >= NANOS_PER_SECOND ==> seconds < i64::MAX,
        nanos < 0 ==> seconds > i64::MIN,
    ensures
        match result {
            Some((whole, rest)) => settled(seconds as int, nanos as int) == Some(
                (whole as int, rest as int),
            ),
            None => settled(seconds as int, nanos as int) is None,
        },
{
    let mut whole = seconds;
    let mut rest = nanos;
    if nanos >= NANOS_PER_SECOND {
        whole = seconds + 1;
        rest = nanos - NANOS_PER_SECOND;
    } else if nanos < 0 {
        whole = seconds - 1;
        rest = nanos + NANOS_PER_SECOND;
    }
    if 0 <= rest && rest < NANOS_PER_SECOND {
        Some((whole, rest as u32))
    } else {
        None
    }
}

/// A settled point in time is the same point in time.
pub proof fn settled_is_the_same_time(seconds: int, nanos: int)
    ensures
        settled(seconds, nanos) matches Some((whole, rest)) ==> whole * NANOS_PER_SECOND + rest
            == seconds * NANOS_PER_SECOND + nanos && 0 <= rest < NANOS_PER_SECOND,
        -NANOS_PER_SECOND <= nanos < 2 * NANOS_PER_SECOND ==> settled(seconds, nanos) is Some,
{
}

/// The label of the point in time so many seconds and nanoseconds after the start of 1970.
pub fn format_timestamp_label(seconds: i64, nanos: u32) -> (label: Option<String>)
    ensures
        some_text(label) == utc_text_of(seconds, nanos, "%m-%d %H:%M:%S"@),
{
    utc_text(seconds, nanos, "%m-%d %H:%M:%S")
}

} // verus!
