//! The realized return: the running sum of what exits have realized,
//! stretched over the calendar, and the returns read from it.

use crate::amount::{checked_difference, checked_sum, fits_i128, Day, PERCENT_UNITS};
use crate::series::{
    filled, increasing, interpolate, lemma_filled_is_forward_fill, lemma_keyed_order, value_on,
};
use crate::unrealized::{daily_return, return_percent};
use vstd::prelude::*;

verus! {

/// The amount, on either side, of the entry that opens the realized series
/// before anything has been realized: the smallest amount that is not zero,
/// so that a ratio of the two sides is defined.
pub const ANCHOR: i128 = 1;

/// The sums, side by side, of the first `count` realized pairs.
pub open spec fn running(events: Seq<(Day, (i128, i128))>, count: int) -> (int, int)
    decreases count,
{
    if count <= 0 {
        (0, 0)
    } else {
        (
            running(events, count - 1).0 + events[count - 1].1.0,
            running(events, count - 1).1 + events[count - 1].1.1,
        )
    }
}

/// Every running sum of the pairs fits in 128 bits.
pub open spec fn running_fits(events: Seq<(Day, (i128, i128))>) -> bool {
    forall|k: int|
        0 <= k <= events.len() ==> fits_i128((#[trigger] running(events, k)).0) && fits_i128(
            running(events, k).1,
        )
}

/// The cumulative series: each day of the events with the running sums up
/// to and with it.
pub open spec fn cumulative(events: Seq<(Day, (i128, i128))>) -> Seq<(Day, (i128, i128))> {
    Seq::new(
        events.len(),
        |i: int|
            (events[i].0, (running(events, i + 1).0 as i128, running(events, i + 1).1 as i128)),
    )
}

/// The cumulative series between its two ends: the anchor on the first day
/// before it, and after it its last value once more on the last day (zeros
/// where it is empty).
pub open spec fn stretched(
    series: Seq<(Day, (i128, i128))>,
    start_date: Day,
    end_date: Day,
) -> Seq<(Day, (i128, i128))> {
    seq![(start_date, (ANCHOR, ANCHOR))] + series + seq![
        (
            end_date,
            if series.len() == 0 {
                (0i128, 0i128)
            } else {
                series.last().1
            },
        ),
    ]
}

/// The realized series of a calendar: the cumulative series of the events,
/// stretched from the first day to the last and filled forward.
pub open spec fn realized_on(
    events: Seq<(Day, (i128, i128))>,
    start_date: Day,
    end_date: Day,
) -> Seq<(Day, (i128, i128))> {
    filled(stretched(cumulative(events), start_date, end_date))
}

/// Where the events are in the order of their dates and lie strictly
/// between the first and the last day of the calendar, the realized series
/// has one entry for every day of the calendar; a day before the first
/// event has the anchor, and any other day has the running sums of the
/// events up to and with the last event dated at or before it.
pub proof fn lemma_realized_is_running_sum(
    events: Seq<(Day, (i128, i128))>,
    start_date: Day,
    end_date: Day,
    place: int,
    day: Day,
)
    requires
        increasing(events),
        running_fits(events),
        start_date < end_date,
        events.len() > 0 ==> start_date < events[0].0 && events.last().0 < end_date,
        start_date <= day <= end_date,
        -1 <= place < events.len(),
        place >= 0 ==> events[place].0 <= day,
        place + 1 < events.len() ==> day < events[place + 1].0,
    ensures
        realized_on(events, start_date, end_date).len() == end_date - start_date + 1,
        value_on(realized_on(events, start_date, end_date), day) == Some(
            if place < 0 && day < end_date {
                (ANCHOR, ANCHOR)
            } else {
                (running(events, place + 1).0 as i128, running(events, place + 1).1 as i128)
            },
        ),
{
    let sums = cumulative(events);
    let whole = stretched(sums, start_date, end_date);
    let n = events.len() as int;
    assert(whole.len() == n + 2);
    assert(whole[0] == (start_date, (ANCHOR, ANCHOR)));
    assert forall|k: int| 1 <= k <= n implies #[trigger] whole[k] == sums[k - 1] by {}
    assert(whole[n + 1].0 == end_date);
    assert forall|i: int| 0 <= i < whole.len() - 1 implies (#[trigger] whole[i]).0 < whole[i
        + 1].0 by {
        if i == 0 {
            if n > 0 {
                assert(whole[1] == sums[0]);
            }
        } else if i < n {
            assert(whole[i] == sums[i - 1]);
            assert(whole[i + 1] == sums[i]);
            assert(events[i - 1].0 < events[i - 1 + 1].0);
        } else {
            assert(whole[n] == sums[n - 1]);
            assert(sums[n - 1].0 == events.last().0);
        }
    }
    if n > 0 {
        assert(whole[n + 1].1 == sums.last().1);
        assert(sums.last() == sums[n - 1]);
    }
    if day == end_date {
        lemma_filled_is_forward_fill(whole, n + 1, day);
        assert(place == n - 1) by {
            if place + 1 < n {
                lemma_keyed_order(events);
                assert(events[place + 1].0 <= events[n - 1].0);
            }
        }
    } else {
        if place >= 0 {
            assert(whole[place + 1] == sums[place]);
        }
        if place + 1 < n {
            assert(whole[place + 2] == sums[place + 1]);
        }
        lemma_filled_is_forward_fill(whole, place + 1, day);
    }
    assert(whole.last() == whole[n + 1]);
}

/// Sums what was realized, day after day, into the cumulative cost basis and
/// market value of every day from the first to the last of the calendar.
/// There is no series where a running sum does not fit in 128 bits.
pub fn realized_series(
    real_returns: &Vec<(Day, (i128, i128))>,
    start_date: Day,
    end_date: Day,
) -> (r: Option<Vec<(Day, (i128, i128))>>)
    ensures
        r.is_some() <==> running_fits(real_returns@),
        r.is_some() ==> r.unwrap()@ == realized_on(real_returns@, start_date, end_date),
{
    let mut out: Vec<(Day, (i128, i128))> = Vec::new();
    out.push((start_date, (ANCHOR, ANCHOR)));
    let mut sums: (i128, i128) = (0, 0);
    let mut i: usize = 0;
    while i < real_returns.len()
        invariant
            i <= real_returns.len(),
            sums.0 == running(real_returns@, i as int).0,
            sums.1 == running(real_returns@, i as int).1,
            forall|k: int|
                0 <= k <= i ==> fits_i128((#[trigger] running(real_returns@, k)).0) && fits_i128(
                    running(real_returns@, k).1,
                ),
            out@ == seq![(start_date, (ANCHOR, ANCHOR))] + cumulative(real_returns@).subrange(
                0,
                i as int,
            ),
        decreases real_returns.len() - i,
    {
        let cost = checked_sum(sums.0, real_returns[i].1.0);
        let worth = checked_sum(sums.1, real_returns[i].1.1);
        match (cost, worth) {
            (Some(c), Some(w)) => {
                sums = (c, w);
            },
            _ => {
                assert(!(fits_i128(running(real_returns@, i + 1).0) && fits_i128(
                    running(real_returns@, i + 1).1,
                )));
                return None;
            },
        }
        out.push((real_returns[i].0, sums));
        assert(out@ =~= seq![(start_date, (ANCHOR, ANCHOR))] + cumulative(
            real_returns@,
        ).subrange(0, i + 1));
        i += 1;
    }
    out.push((end_date, sums));
    assert(cumulative(real_returns@).subrange(0, real_returns.len() as int) == cumulative(
        real_returns@,
    ));
    assert(out@ =~= stretched(cumulative(real_returns@), start_date, end_date));
    interpolate(&mut out);
    Some(out)
}

/// The realized return in amount: market value less cost basis, where the
/// difference fits in 128 bits.
pub fn absolute_return(cost_basis: i128, market_value: i128) -> (r: Option<i128>)
    ensures
        r.is_some() <==> fits_i128(market_value - cost_basis),
        r.is_some() ==> r.unwrap() == market_value - cost_basis,
{
    checked_difference(market_value, cost_basis)
}

/// The realized return in percent units: a hundred times the market value
/// over the cost basis, less a hundred. There is none where the cost basis
/// is zero or a step does not fit in 128 bits.
pub fn relative_return(cost_basis: i128, market_value: i128) -> (r: Option<i128>)
    ensures
        r.is_some() <==> {
            &&& cost_basis != 0
            &&& fits_i128(market_value - cost_basis)
            &&& fits_i128(100 * PERCENT_UNITS * (market_value - cost_basis))
            &&& fits_i128(return_percent(cost_basis as int, market_value as int, 0))
        },
        r.is_some() ==> r.unwrap() == return_percent(cost_basis as int, market_value as int, 0),
{
    daily_return(cost_basis, market_value, 0)
}

/// The realized return of every day in amount. There is none where that of
/// some day does not fit.
pub fn absolute_returns(series: &Vec<(Day, (i128, i128))>) -> (r: Option<Vec<(Day, i128)>>)
    ensures
        r.is_some() <==> forall|i: int|
            0 <= i < series.len() ==> fits_i128((#[trigger] series[i]).1.1 - series[i].1.0),
        r.is_some() ==> r.unwrap().len() == series.len() && forall|i: int|
            0 <= i < series.len() ==> (#[trigger] r.unwrap()[i]).0 == series[i].0
                && r.unwrap()[i].1 == series[i].1.1 - series[i].1.0,
{
    let mut out: Vec<(Day, i128)> = Vec::new();
    let mut i: usize = 0;
    while i < series.len()
        invariant
            i <= series.len(),
            out.len() == i,
            forall|k: int| 0 <= k < i ==> fits_i128((#[trigger] series[k]).1.1 - series[k].1.0),
            forall|k: int|
                0 <= k < i ==> (#[trigger] out[k]).0 == series[k].0 && out[k].1 == series[k].1.1
                    - series[k].1.0,
        decreases series.len() - i,
    {
        match absolute_return(series[i].1.0, series[i].1.1) {
            None => {
                assert(!fits_i128(series[i as int].1.1 - series[i as int].1.0));
                return None;
            },
            Some(gain) => {
                out.push((series[i].0, gain));
            },
        }
        i += 1;
    }
    Some(out)
}

/// Whether the relative return of a pair exists.
pub open spec fn has_relative(cost_basis: int, market_value: int) -> bool {
    &&& cost_basis != 0
    &&& fits_i128(market_value - cost_basis)
    &&& fits_i128(100 * PERCENT_UNITS * (market_value - cost_basis))
    &&& fits_i128(return_percent(cost_basis, market_value, 0))
}

/// The realized return of every day in percent units. There is none where
/// that of some day does not exist.
pub fn relative_returns(series: &Vec<(Day, (i128, i128))>) -> (r: Option<Vec<(Day, i128)>>)
    ensures
        r.is_some() <==> forall|i: int|
            0 <= i < series.len() ==> has_relative(
                (#[trigger] series[i]).1.0 as int,
                series[i].1.1 as int,
            ),
        r.is_some() ==> r.unwrap().len() == series.len() && forall|i: int|
            0 <= i < series.len() ==> (#[trigger] r.unwrap()[i]).0 == series[i].0
                && r.unwrap()[i].1 == return_percent(
                series[i].1.0 as int,
                series[i].1.1 as int,
                0,
            ),
{
    let mut out: Vec<(Day, i128)> = Vec::new();
    let mut i: usize = 0;
    while i < series.len()
        invariant
            i <= series.len(),
            out.len() == i,
            forall|k: int|
                0 <= k < i ==> has_relative((#[trigger] series[k]).1.0 as int, series[k].1.1 as int),
            forall|k: int|
                0 <= k < i ==> (#[trigger] out[k]).0 == series[k].0 && out[k].1 == return_percent(
                    series[k].1.0 as int,
                    series[k].1.1 as int,
                    0,
                ),
        decreases series.len() - i,
    {
        match relative_return(series[i].1.0, series[i].1.1) {
            None => {
                assert(!has_relative(series[i as int].1.0 as int, series[i as int].1.1 as int));
                return None;
            },
            Some(percent) => {
                out.push((series[i].0, percent));
            },
        }
        i += 1;
    }
    Some(out)
}

/// The return of a benchmark on every day after the first, in percent units:
/// a hundred times the day's price over the first price, less a hundred.
/// There is none where the first price is zero.
pub fn calculate_benchmark_returns(bench_returns: &Vec<(Day, i64)>) -> (r: Option<Vec<i128>>)
    ensures
        r.is_some() <==> bench_returns.len() <= 1 || bench_returns[0].1 != 0,
        r.is_some() && bench_returns.len() == 0 ==> r.unwrap().len() == 0,
        r.is_some() && bench_returns.len() > 0 ==> r.unwrap().len() == bench_returns.len() - 1,
        r.is_some() ==> forall|i: int|
            0 <= i < r.unwrap().len() ==> #[trigger] r.unwrap()[i] == return_percent(
                bench_returns[0].1 as int,
                bench_returns[i + 1].1 as int,
                0,
            ),
{
    let mut out: Vec<i128> = Vec::new();
    let mut i: usize = 1;
    while i < bench_returns.len()
        invariant
            1 <= i,
            bench_returns.len() > 1 ==> i <= bench_returns.len(),
            bench_returns.len() <= 1 ==> i == 1,
            out.len() == i - 1,
            i > 1 ==> bench_returns[0].1 != 0,
            forall|k: int|
                0 <= k < out.len() ==> #[trigger] out[k] == return_percent(
                    bench_returns[0].1 as int,
                    bench_returns[k + 1].1 as int,
                    0,
                ),
        decreases bench_returns.len() - i,
    {
        let first: i128 = bench_returns[0].1 as i128;
        let today: i128 = bench_returns[i].1 as i128;
        proof {
            lemma_price_change_fits(first as int, today as int);
        }
        match relative_return(first, today) {
            None => {
                return None;
            },
            Some(percent) => {
                out.push(percent);
            },
        }
        i += 1;
    }
    Some(out)
}

/// The return of one 64-bit price over another fits in 128 bits.
proof fn lemma_price_change_fits(first: int, today: int)
    requires
        i64::MIN <= first <= i64::MAX,
        i64::MIN <= today <= i64::MAX,
    ensures
        fits_i128(today - first),
        fits_i128(100 * PERCENT_UNITS * (today - first)),
        first != 0 ==> fits_i128(return_percent(first, today, 0)),
{
    let scaled = 100 * PERCENT_UNITS * (today - first + 0);
    assert(100 * PERCENT_UNITS == 100_000_000);
    assert(scaled == 100_000_000 * (today - first));
    assert(-0x1_0000_0000_0000_0000 * 100_000_000 <= scaled <= 0x1_0000_0000_0000_0000
        * 100_000_000);
    if first != 0 {
        if first > 0 {
            crate::amount::lemma_trunc_div_bounds(scaled, first);
            let q = crate::amount::trunc_div(scaled, first);
            if scaled >= 0 {
                assert(0 <= q <= scaled) by (nonlinear_arith)
                    requires
                        q * first <= scaled < q * first + first,
                        first >= 1,
                        scaled >= 0,
                ;
            } else {
                assert(scaled <= q <= 0) by (nonlinear_arith)
                    requires
                        q * first - first < scaled <= q * first,
                        first >= 1,
                        scaled <= 0,
                ;
            }
        } else {
            crate::amount::lemma_trunc_div_bounds(scaled, -first);
            let q = crate::amount::quotient_by_positive(scaled, -first);
            let d = -first;
            if scaled >= 0 {
                assert(0 <= q <= scaled) by (nonlinear_arith)
                    requires
                        q * d <= scaled < q * d + d,
                        d >= 1,
                        scaled >= 0,
                ;
            } else {
                assert(scaled <= q <= 0) by (nonlinear_arith)
                    requires
                        q * d - d < scaled <= q * d,
                        d >= 1,
                        scaled <= 0,
                ;
            }
        }
    }
}

} // verus!
