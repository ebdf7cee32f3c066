use chrono::DateTime;
use chrono::NaiveDate;
use chrono::NaiveTime;
use chrono::Timelike;
use std::fmt::Write;
use vstd::prelude::*;

verus! {

/// What chrono's `NaiveDate::parse_from_str` makes of `text` under `format`:
/// the midnight that opens the day it reads, in seconds since 1970, or
/// nothing where it reads no day.
pub uninterp spec fn day_start(text: Seq<char>, format: Seq<char>) -> Option<i64>;

/// What chrono's `NaiveTime::parse_from_str` makes of `text` under `format`:
/// the whole seconds since midnight of the time of day it reads, or nothing
/// where it reads none.
pub uninterp spec fn second_of_day(text: Seq<char>, format: Seq<char>) -> Option<u32>;

/// What chrono's `DateTime::format` writes for the moment `seconds` after
/// 1970, read in UTC, under `format`, or nothing where chrono has no such
/// moment or cannot follow the format.
pub uninterp spec fn written(seconds: i64, format: Seq<char>) -> Option<Seq<char>>;

/// Whether std's `char::is_whitespace` counts `c` as white space.
pub uninterp spec fn white(c: char) -> bool;

/// Reads a calendar day with chrono's `NaiveDate::parse_from_str`. Not
/// proved: that the answer depends on the text and the format alone, which is
/// all the contract claims by naming it.
#[verifier::external_body]
pub(crate) fn parse_date(text: &str, format: &str) -> (r: Option<i64>)
    ensures
        r == day_start(text@, format@),
{
    match NaiveDate::parse_from_str(text, format) {
        Ok(day) => Some(day.and_time(NaiveTime::MIN).and_utc().timestamp()),
        Err(_) => None,
    }
}

/// Reads a time of day with chrono's `NaiveTime::parse_from_str`. Not proved:
/// that the answer depends on the text and the format alone.
#[verifier::external_body]
pub(crate) fn parse_time(text: &str, format: &str) -> (r: Option<u32>)
    ensures
        r == second_of_day(text@, format@),
{
    match NaiveTime::parse_from_str(text, format) {
        Ok(time) => Some(time.num_seconds_from_midnight()),
        Err(_) => None,
    }
}

/// Writes a moment out with chrono's `DateTime::format`. Not proved: that the
/// text depends on the moment and the format alone.
#[verifier::external_body]
pub(crate) fn write_moment(seconds: i64, format: &str) -> (r: Option<String>)
    ensures
        r.is_some() == written(seconds, format@).is_some(),
        r matches Some(text) ==> Some(text@) == written(seconds, format@),
{
    match DateTime::from_timestamp(seconds, 0) {
        Some(moment) => {
            let mut text = String::new();
            match write!(text, "{}", moment.format(format)) {
                Ok(_) => Some(text),
                Err(_) => None,
            }
        },
        None => None,
    }
}

/// Asks std's `char::is_whitespace`. Not proved: which characters it counts.
#[verifier::external_body]
pub(crate) fn is_white(c: char) -> (r: bool)
    ensures
        r == white(c),
{
    c.is_whitespace()
}

} // verus!
