//! Calendar days: reading them from text and laying them out in a range.

use crate::amount::Day;
use crate::broker::Order;
use chrono::NaiveDate;
use std::str::FromStr;
use vstd::prelude::*;

verus! {

/// The day that a text names, counted from 1970-01-01, where the text
/// names a day at all: a year, a month and a day of the month in digits,
/// with a hyphen between them.
pub uninterp spec fn parsed_day(text: Seq<char>) -> Option<i32>;

/// The day that a text names by the format `%Y-%m-%d`, counted from
/// 1970-01-01, where the text fits the format and names a day.
pub uninterp spec fn formatted_day(text: Seq<char>) -> Option<i32>;

/// Reads a day with `chrono::NaiveDate::from_str` and counts it from
/// 1970-01-01 with `to_epoch_days`. Nothing is claimed of the result but
/// that it depends on the text alone.
#[verifier::external_body]
pub(crate) fn parse_day(text: &str) -> (r: Option<Day>)
    ensures
        r == parsed_day(text@),
{
    match NaiveDate::from_str(text) {
        Ok(date) => Some(date.to_epoch_days()),
        Err(_) => None,
    }
}

/// Reads a day with `chrono::NaiveDate::parse_from_str` and the format
/// `%Y-%m-%d`, and counts it from 1970-01-01 with `to_epoch_days`. Nothing is
/// claimed of the result but that it depends on the text alone.
#[verifier::external_body]
fn parse_formatted_day(text: &str) -> (r: Option<Day>)
    ensures
        r == formatted_day(text@),
{
    match NaiveDate::parse_from_str(text, "%Y-%m-%d") {
        Ok(date) => Some(date.to_epoch_days()),
        Err(_) => None,
    }
}

/// The number of days from `start` to `end`, both counted, and none where
/// `end` is before `start`.
pub open spec fn days_between(start: Day, end: Day) -> int {
    if end < start {
        0
    } else {
        end - start + 1
    }
}

/// The days from `start` to `end`, both included, in order.
pub open spec fn days_from(start: Day, end: Day) -> Seq<Day> {
    Seq::new(days_between(start, end) as nat, |k: int| (start + k) as Day)
}

/// Lays out every day from `start` to `end`, both included. The range is
/// empty where `end` is before `start`.
pub fn range_between(start: Day, end: Day) -> (r: Vec<Day>)
    ensures
        r@ == days_from(start, end),
{
    let mut out: Vec<Day> = Vec::new();
    if end < start {
        assert(out@ =~= days_from(start, end));
        return out;
    }
    let mut day: Day = start;
    loop
        invariant
            start <= day <= end,
            out@ == Seq::new((day - start) as nat, |k: int| (start + k) as Day),
        decreases end - day,
    {
        out.push(day);
        assert(out@ =~= Seq::new((day - start + 1) as nat, |k: int| (start + k) as Day));
        if day == end {
            return out;
        }
        day += 1;
    }
}

/// The place of a day in a range laid out from `start`, if it lies in it.
pub fn day_index(time_range: &Vec<Day>, date: Day) -> (r: Option<usize>)
    ensures
        match r {
            Some(i) => i < time_range.len() && time_range[i as int] == date && forall|k: int|
                0 <= k < i ==> time_range[k] != date,
            None => forall|k: int| 0 <= k < time_range.len() ==> time_range[k] != date,
        },
{
    let mut i: usize = 0;
    while i < time_range.len()
        invariant
            i <= time_range.len(),
            forall|k: int| 0 <= k < i ==> time_range[k] != date,
        decreases time_range.len() - i,
    {
        if time_range[i] == date {
            return Some(i);
        }
        i += 1;
    }
    None
}

/// Why no calendar could be laid out.
#[derive(Clone, Copy, Debug, PartialEq, Eq, Structural)]
pub enum CalendarError {
    /// There is no order to start the calendar from.
    NoOrders,
    /// The timestamp of the first order names no day.
    InvalidDate,
}

/// Lays out the calendar of a portfolio: every day from the day of the
/// first order to today. Without an order there is no calendar, nor where
/// the first order's timestamp names no day. The calendar is empty where
/// the first order is dated after today.
pub fn get_time_range(data: &Vec<Order>, today: Day) -> (r: Result<Vec<Day>, CalendarError>)
    ensures
        match r {
            Ok(time_range) => data.len() > 0 && formatted_day(data[0].date_modified@).is_some()
                && time_range@ == days_from(formatted_day(data[0].date_modified@).unwrap(), today),
            Err(CalendarError::NoOrders) => data.len() == 0,
            Err(CalendarError::InvalidDate) => data.len() > 0 && formatted_day(
                data[0].date_modified@,
            ).is_none(),
        },
{
    if data.len() == 0 {
        return Err(CalendarError::NoOrders);
    }
    match parse_formatted_day(data[0].date_modified.as_str()) {
        None => Err(CalendarError::InvalidDate),
        Some(start) => Ok(range_between(start, today)),
    }
}

} // verus!
