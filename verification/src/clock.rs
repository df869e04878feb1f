//! Dates and times of day, as they are written.

use crate::text::{digits_of_width, fixed_digits, push_char, text_view};
use chrono::{Datelike, Timelike};
use vstd::prelude::*;

verus! {

/// A date as chrono writes it with `%Y-%m-%d`, by the number of the day; nothing
/// where chrono has no such day.
pub uninterp spec fn date_text_of(day: i32) -> Option<Seq<char>>;

/// `NaiveDate::from_num_days_from_ce_opt` and `NaiveDate::format` with
/// `%Y-%m-%d`: the date of a day by its number, day 1 being the first of January
/// of year 1; nothing where the number is out of chrono's range. Which text it is
/// for a given day is not stated.
#[verifier::external_body]
pub(crate) fn date_text(day: i32) -> (text: Option<String>)
    ensures
        text_view(text) == date_text_of(day),
{
    chrono::NaiveDate::from_num_days_from_ce_opt(day).map(|date| date.format("%Y-%m-%d").to_string())
}

/// The number of the day that chrono reads from a text as `%Y-%m-%d`; nothing
/// where it cannot.
pub uninterp spec fn day_of_text(text: Seq<char>) -> Option<i32>;

/// `NaiveDate::parse_from_str` with `%Y-%m-%d`, and `num_days_from_ce` of what it
/// gives. Which day it is for a given text is not stated.
#[verifier::external_body]
fn parse_day(text: &str) -> (day: Option<i32>)
    ensures
        day == day_of_text(text@),
{
    chrono::NaiveDate::parse_from_str(text, "%Y-%m-%d").ok().map(|date| date.num_days_from_ce())
}

/// The seconds since midnight that chrono reads from a text in a format; nothing
/// where it cannot.
pub uninterp spec fn secs_of_text(text: Seq<char>, format: Seq<char>) -> Option<u32>;

/// `NaiveTime::parse_from_str`, and `num_seconds_from_midnight` of what it gives,
/// which is less than a day. Which time it is for a given text is not stated.
#[verifier::external_body]
fn parse_time(text: &str, format: &str) -> (secs: Option<u32>)
    ensures
        secs == secs_of_text(text@, format@),
        secs is Some ==> secs->0 < 86400,
{
    chrono::NaiveTime::parse_from_str(text, format).ok().map(|time| time.num_seconds_from_midnight())
}

/// The milliseconds since the start of 1970 that chrono reads from a date and a
/// time of day; nothing where it cannot.
pub uninterp spec fn moment_of_text(text: Seq<char>) -> Option<i64>;

/// `NaiveDateTime::parse_from_str` with `%Y-%m-%d %H:%M:%S`, and
/// `timestamp_millis` of what it gives, taken as UTC. Which moment it is for a
/// given text is not stated.
#[verifier::external_body]
pub(crate) fn parse_moment(text: &str) -> (moment: Option<i64>)
    ensures
        moment == moment_of_text(text@),
{
    chrono::NaiveDateTime::parse_from_str(text, "%Y-%m-%d %H:%M:%S").ok().map(|moment| moment.and_utc().timestamp_millis())
}

/// A time of day, with or without seconds, given what was read either way.
pub open spec fn first_time(without_secs: Option<u32>, with_secs: Option<u32>) -> Option<u32> {
    if without_secs is Some { without_secs } else { with_secs }
}

/// Reads a date.
pub fn parse_service_date(text: &str) -> (day: Option<i32>)
    ensures
        day == day_of_text(text@),
{
    parse_day(text)
}

/// Reads a time of day: hours and minutes, or hours, minutes and seconds.
pub fn parse_clock_time(text: &str) -> (secs: Option<u32>)
    ensures
        secs == first_time(secs_of_text(text@, "%H:%M"@), secs_of_text(text@, "%H:%M:%S"@)),
        secs is Some ==> secs->0 < 86400,
{
    match parse_time(text, "%H:%M") {
        Some(secs) => Some(secs),
        None => parse_time(text, "%H:%M:%S"),
    }
}

/// A time of day as hours, minutes and seconds of two digits each.
pub open spec fn clock_text(secs: int) -> Seq<char> {
    fixed_digits(secs / 3600, 10, 2) + seq![':'] + fixed_digits(secs / 60 % 60, 10, 2) + seq![':'] + fixed_digits(secs % 60, 10, 2)
}

/// A time of day as a text.
pub fn format_clock(secs: u32) -> (text: String)
    ensures
        text@ == clock_text(secs as int),
{
    let mut text: String = digits_of_width((secs / 3600) as u64, 10, 2);
    push_char(&mut text, ':');
    text.append(digits_of_width((secs / 60 % 60) as u64, 10, 2).as_str());
    push_char(&mut text, ':');
    text.append(digits_of_width((secs % 60) as u64, 10, 2).as_str());
    assert(text@ =~= clock_text(secs as int));
    text
}

/// The day on which a number of seconds of a service day falls.
pub open spec fn day_at(service_date: i32, seconds: int) -> int {
    service_date + seconds / 86400
}

/// A date and a time of day, given the date.
pub fn stamp(date: &str, secs: u32) -> (text: String)
    ensures
        text@ == date@ + seq![' '] + clock_text(secs as int),
{
    let mut text: String = date.to_owned();
    push_char(&mut text, ' ');
    text.append(format_clock(secs).as_str());
    assert(text@ =~= date@ + seq![' '] + clock_text(secs as int));
    text
}

/// A number of seconds of a service day as a date and a time. Seconds before or
/// after the day fall on earlier or later days. There is no text where the day
/// cannot be written.
pub fn format_service_time(service_date: i32, seconds: i32) -> (text: Option<String>)
    ensures
        ({
            let day = day_at(service_date, seconds as int);
            let date = if i32::MIN <= day <= i32::MAX { date_text_of(day as i32) } else { None };
            text_view(text) == match date {
                Some(written) => Some(written + seq![' '] + clock_text(seconds as int % 86400)),
                None => None,
            }
        }),
{
    let whole: i64 = seconds as i64;
    let mut days: i64 = whole / 86400;
    let mut rest: i64 = whole % 86400;
    if rest < 0 {
        rest = rest + 86400;
        days = days - 1;
    }
    assert(rest == seconds as int % 86400 && days == seconds as int / 86400) by {
        assert(whole == 86400 * days + rest);
        assert(0 <= rest < 86400);
    }
    let day: i64 = service_date as i64 + days;
    if day < i32::MIN as i64 || day > i32::MAX as i64 {
        return None;
    }
    match date_text(day as i32) {
        Some(date) => Some(stamp(date.as_str(), rest as u32)),
        None => None,
    }
}

/// The second of a day after its last is the first of the next day.
pub proof fn midnight_begins_the_next_day(service_date: i32, seconds: int)
    ensures
        day_at(service_date, seconds + 86400) == day_at(service_date, seconds) + 1,
        (seconds + 86400) % 86400 == seconds % 86400,
{
}

} // verus!
