//! Daily closing prices as the market-data provider reports them.

use crate::amount::Day;
use crate::series::{filled, interpolate, put, with_entry};
use crate::unrealized::PriceHistory;
use chrono::{TimeZone, Utc};
use vstd::prelude::*;

verus! {

/// The seconds of a day.
pub const DAY_SECONDS: i64 = 86_400;

/// Why no prices came out of a report.
#[derive(Clone, Copy, Debug, PartialEq, Eq, Structural)]
pub enum PriceError {
    /// A timestamp of the report is out of the range of the calendar.
    BadTimestamp,
    /// The report holds no price at all.
    NoData,
}

/// The day on which an instant falls in UTC, the instant given in seconds
/// from 1970-01-01 00:00 UTC, where the calendar reaches that far.
pub uninterp spec fn day_of_timestamp(secs: i64) -> Option<i32>;

/// Makes an instant of a timestamp with `chrono::TimeZone::timestamp_opt`
/// on `Utc` and takes its date in UTC, counted in days from 1970-01-01.
/// The call refuses a timestamp out of the calendar's range; for any other
/// the date is the number of whole days in the seconds, rounded down.
#[verifier::external_body]
fn unix_to_date(timestamp: i64) -> (r: Option<Day>)
    ensures
        r == day_of_timestamp(timestamp),
        r.is_some() ==> r.unwrap() == timestamp as int / 86_400,
{
    match Utc.timestamp_opt(timestamp, 0).single() {
        Some(instant) => Some(instant.naive_utc().date().to_epoch_days()),
        None => None,
    }
}

/// The timestamp of the first second of a day in UTC.
pub fn to_unix(date: Day) -> (r: i64)
    ensures
        r == date * DAY_SECONDS,
{
    date as i64 * DAY_SECONDS
}

/// The two timestamps between which prices are asked for: from the day
/// before the first day, so that a range of one day is not empty, to the
/// last day; where the two would be the same, the second is a day earlier.
pub open spec fn window_of(start_date: Day, end_date: Day) -> (int, int) {
    let from = (start_date - 1) * DAY_SECONDS;
    let to = end_date * DAY_SECONDS;
    if from == to {
        (from, to - DAY_SECONDS)
    } else {
        (from, to)
    }
}

/// The two timestamps between which prices are asked for.
pub fn query_window(start_date: Day, end_date: Day) -> (r: (i64, i64))
    ensures
        r.0 == window_of(start_date, end_date).0,
        r.1 == window_of(start_date, end_date).1,
{
    let from: i64 = (start_date as i64 - 1) * DAY_SECONDS;
    let to: i64 = to_unix(end_date);
    if from == to {
        (from, to - DAY_SECONDS)
    } else {
        (from, to)
    }
}

/// The timestamp and the close at a place of a report, where both are there.
pub open spec fn close_at(timestamps: Seq<Option<i64>>, closes: Seq<Option<i64>>, i: int) -> Option<
    (i64, i64),
> {
    if 0 <= i < timestamps.len() && i < closes.len() {
        match (timestamps[i], closes[i]) {
            (Some(t), Some(p)) => Some((t, p)),
            _ => None,
        }
    } else {
        None
    }
}

/// The prices by day that the first `count` places of a report give: each
/// place with a timestamp and a close sets the price of its day, a later
/// place replacing an earlier one of the same day. There are none where the
/// day of a timestamp cannot be told.
pub open spec fn closes_to(timestamps: Seq<Option<i64>>, closes: Seq<Option<i64>>, count: int) -> Option<
    Seq<(Day, i64)>,
>
    decreases count,
{
    if count <= 0 {
        Some(Seq::empty())
    } else {
        match closes_to(timestamps, closes, count - 1) {
            None => None,
            Some(series) => match close_at(timestamps, closes, count - 1) {
                None => Some(series),
                Some((t, p)) => match day_of_timestamp(t) {
                    None => None,
                    Some(day) => Some(with_entry(series, day, p)),
                },
            },
        }
    }
}

/// Pairs the timestamps of a report with its closes, place by place, into
/// prices by day, in the order of the days. A place that lacks either is
/// passed over. A report that gives no price at all is an error, as is a
/// timestamp whose day cannot be told.
pub fn pair_closes(timestamps: &Vec<Option<i64>>, closes: &Vec<Option<i64>>) -> (r: Result<
    Vec<(Day, i64)>,
    PriceError,
>)
    ensures
        match closes_to(timestamps@, closes@, timestamps.len() as int) {
            None => r == Err::<Vec<(Day, i64)>, PriceError>(PriceError::BadTimestamp),
            Some(series) => if series.len() == 0 {
                r == Err::<Vec<(Day, i64)>, PriceError>(PriceError::NoData)
            } else {
                r.is_ok() && r.unwrap()@ == series
            },
        },
{
    let mut out: Vec<(Day, i64)> = Vec::new();
    let mut i: usize = 0;
    while i < timestamps.len()
        invariant
            i <= timestamps.len(),
            closes_to(timestamps@, closes@, i as int) == Some(out@),
        decreases timestamps.len() - i,
    {
        if i < closes.len() {
            match (timestamps[i], closes[i]) {
                (Some(t), Some(p)) => {
                    match unix_to_date(t) {
                        None => {
                            proof {
                                lemma_bad_timestamp_stays(
                                    timestamps@,
                                    closes@,
                                    i + 1,
                                    timestamps.len() as int,
                                );
                            }
                            return Err(PriceError::BadTimestamp);
                        },
                        Some(day) => {
                            put(&mut out, day, p);
                        },
                    }
                },
                _ => {},
            }
        }
        i += 1;
    }
    if out.len() == 0 {
        Err(PriceError::NoData)
    } else {
        Ok(out)
    }
}

proof fn lemma_bad_timestamp_stays(
    timestamps: Seq<Option<i64>>,
    closes: Seq<Option<i64>>,
    failed: int,
    count: int,
)
    requires
        failed <= count,
        closes_to(timestamps, closes, failed).is_none(),
    ensures
        closes_to(timestamps, closes, count).is_none(),
    decreases count - failed,
{
    if failed < count {
        lemma_bad_timestamp_stays(timestamps, closes, failed, count - 1);
    }
}

/// Fills the days on which a market was closed with the price of the day
/// before, in the history of every ticker.
pub fn interpolate_weekends(full_history: &mut Vec<PriceHistory>)
    ensures
        final(full_history).len() == old(full_history).len(),
        forall|i: int|
            0 <= i < old(full_history).len() ==> (#[trigger] final(full_history)[i]).ticker == old(
                full_history,
            )[i].ticker && final(full_history)[i].prices@ == filled(old(full_history)[i].prices@),
{
    let mut i: usize = 0;
    while i < full_history.len()
        invariant
            i <= full_history.len(),
            full_history.len() == old(full_history).len(),
            forall|k: int|
                0 <= k < i ==> (#[trigger] full_history[k]).ticker == old(full_history)[k].ticker
                    && full_history[k].prices@ == filled(old(full_history)[k].prices@),
            forall|k: int| i <= k < full_history.len() ==> full_history[k] == old(full_history)[k],
        decreases full_history.len() - i,
    {
        interpolate(&mut full_history[i].prices);
        i += 1;
    }
}

} // verus!
