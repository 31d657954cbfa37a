//! Figures that are read off a series of returns, in percent units.

use crate::amount::{
    checked_difference, checked_product, checked_quotient, checked_sum, fits_i128, trunc_div,
};
use vstd::prelude::*;

verus! {

/// A hundred percent, in percent units.
pub const HUNDRED: i128 = 100_000_000;

/// The change of one day: the cumulative return of the day, less what the
/// level before it stands above a hundred percent, as a percentage of that
/// level.
pub open spec fn change(value: int, level: int) -> int {
    trunc_div((value + HUNDRED - level) * HUNDRED, level)
}

/// Whether the change of a day can be told: the level is not zero and every
/// step fits in 128 bits.
pub open spec fn has_change(value: int, level: int) -> bool {
    &&& level != 0
    &&& fits_i128(value + HUNDRED)
    &&& fits_i128(value + HUNDRED - level)
    &&& fits_i128((value + HUNDRED - level) * HUNDRED)
    &&& fits_i128(change(value, level))
    &&& fits_i128(change(value, level) + level)
}

/// The level before day `count`: a hundred percent before the first day,
/// and after each day the level before it plus the day's change.
pub open spec fn level_to(values: Seq<i128>, count: int) -> int
    decreases count,
{
    if count <= 0 {
        HUNDRED as int
    } else {
        change(values[count - 1] as int, level_to(values, count - 1)) + level_to(
            values,
            count - 1,
        )
    }
}

/// The change of every day can be told.
pub open spec fn changes_exist(values: Seq<i128>) -> bool {
    forall|k: int|
        0 <= k < values.len() ==> has_change(
            (#[trigger] values[k]) as int,
            level_to(values, k),
        )
}

/// Turns cumulative returns into the change of each day. There are none
/// where the change of some day cannot be told.
pub fn get_daily_returns(just_returns: Vec<i128>) -> (r: Option<Vec<i128>>)
    ensures
        r.is_some() <==> changes_exist(just_returns@),
        r.is_some() ==> r.unwrap().len() == just_returns.len() && forall|k: int|
            0 <= k < just_returns.len() ==> #[trigger] r.unwrap()[k] == change(
                just_returns[k] as int,
                level_to(just_returns@, k),
            ),
{
    let mut out: Vec<i128> = Vec::new();
    let mut level: i128 = HUNDRED;
    let mut i: usize = 0;
    while i < just_returns.len()
        invariant
            i <= just_returns.len(),
            out.len() == i,
            level == level_to(just_returns@, i as int),
            forall|k: int|
                0 <= k < i ==> has_change(
                    (#[trigger] just_returns[k]) as int,
                    level_to(just_returns@, k),
                ),
            forall|k: int|
                0 <= k < i ==> #[trigger] out[k] == change(
                    just_returns[k] as int,
                    level_to(just_returns@, k),
                ),
        decreases just_returns.len() - i,
    {
        let step = day_change(just_returns[i], level);
        let next = match step {
            None => None,
            Some(daily) => match checked_sum(daily, level) {
                None => None,
                Some(raised) => Some((daily, raised)),
            },
        };
        match next {
            None => {
                assert(!has_change(just_returns[i as int] as int, level_to(just_returns@, i as int)));
                return None;
            },
            Some((daily, raised)) => {
                out.push(daily);
                level = raised;
            },
        }
        i += 1;
    }
    Some(out)
}

/// The change of one day against the level before it, where its steps fit.
fn day_change(value: i128, level: i128) -> (r: Option<i128>)
    ensures
        r.is_some() <==> {
            &&& level != 0
            &&& fits_i128(value + HUNDRED)
            &&& fits_i128(value + HUNDRED - level)
            &&& fits_i128((value + HUNDRED - level) * HUNDRED)
            &&& fits_i128(change(value as int, level as int))
        },
        r.is_some() ==> r.unwrap() == change(value as int, level as int),
{
    match checked_sum(value, HUNDRED) {
        None => None,
        Some(raised) => match checked_difference(raised, level) {
            None => None,
            Some(gain) => match checked_product(gain, HUNDRED) {
                None => None,
                Some(scaled) => checked_quotient(scaled, level),
            },
        },
    }
}

/// The sum of the products of the deviations of the first `count` pairs of
/// returns from their means.
pub open spec fn deviations_to(
    just_returns: Seq<i128>,
    bench_returns: Seq<i128>,
    mean: int,
    mean_bench: int,
    count: int,
) -> int
    decreases count,
{
    if count <= 0 {
        0
    } else {
        deviations_to(just_returns, bench_returns, mean, mean_bench, count - 1) + (
        just_returns[count - 1] - mean) * (bench_returns[count - 1] - mean_bench)
    }
}

/// The number of pairs that two lists of returns make.
pub open spec fn pairs(just_returns: Seq<i128>, bench_returns: Seq<i128>) -> int {
    if just_returns.len() <= bench_returns.len() {
        just_returns.len() as int
    } else {
        bench_returns.len() as int
    }
}

/// Every step toward the covariance fits in 128 bits.
pub open spec fn deviations_fit(
    just_returns: Seq<i128>,
    bench_returns: Seq<i128>,
    mean: int,
    mean_bench: int,
) -> bool {
    forall|k: int|
        0 <= k < pairs(just_returns, bench_returns) ==> {
            &&& fits_i128((#[trigger] just_returns[k]) - mean)
            &&& fits_i128(bench_returns[k] - mean_bench)
            &&& fits_i128((just_returns[k] - mean) * (bench_returns[k] - mean_bench))
            &&& fits_i128(deviations_to(just_returns, bench_returns, mean, mean_bench, k + 1))
        }
}

/// The covariance of a portfolio's returns with a benchmark's, given the
/// mean of each: the mean product of the deviations, paired place by place
/// and divided by the number of the portfolio's returns. It is in percent
/// units squared. There is none without a return or where a step does not
/// fit in 128 bits.
pub fn covariance(
    just_returns: &Vec<i128>,
    bench_returns: &Vec<i128>,
    mean: i128,
    mean_bench: i128,
) -> (r: Option<i128>)
    ensures
        r.is_some() <==> just_returns.len() > 0 && deviations_fit(
            just_returns@,
            bench_returns@,
            mean as int,
            mean_bench as int,
        ),
        r.is_some() ==> r.unwrap() == trunc_div(
            deviations_to(
                just_returns@,
                bench_returns@,
                mean as int,
                mean_bench as int,
                pairs(just_returns@, bench_returns@),
            ),
            just_returns.len() as int,
        ),
{
    if just_returns.len() == 0 {
        return None;
    }
    let n: usize = if just_returns.len() <= bench_returns.len() {
        just_returns.len()
    } else {
        bench_returns.len()
    };
    let mut sum: i128 = 0;
    let mut i: usize = 0;
    while i < n
        invariant
            i <= n,
            n == pairs(just_returns@, bench_returns@),
            sum == deviations_to(
                just_returns@,
                bench_returns@,
                mean as int,
                mean_bench as int,
                i as int,
            ),
            forall|k: int|
                0 <= k < i ==> {
                    &&& fits_i128((#[trigger] just_returns[k]) - mean)
                    &&& fits_i128(bench_returns[k] - mean_bench)
                    &&& fits_i128((just_returns[k] - mean) * (bench_returns[k] - mean_bench))
                    &&& fits_i128(
                        deviations_to(
                            just_returns@,
                            bench_returns@,
                            mean as int,
                            mean_bench as int,
                            k + 1,
                        ),
                    )
                },
        decreases n - i,
    {
        let next = match checked_difference(just_returns[i], mean) {
            None => None,
            Some(ours) => match checked_difference(bench_returns[i], mean_bench) {
                None => None,
                Some(theirs) => match checked_product(ours, theirs) {
                    None => None,
                    Some(term) => checked_sum(sum, term),
                },
            },
        };
        match next {
            None => {
                assert(!{
                    &&& fits_i128(just_returns[i as int] - mean)
                    &&& fits_i128(bench_returns[i as int] - mean_bench)
                    &&& fits_i128(
                        (just_returns[i as int] - mean) * (bench_returns[i as int] - mean_bench),
                    )
                    &&& fits_i128(
                        deviations_to(
                            just_returns@,
                            bench_returns@,
                            mean as int,
                            mean_bench as int,
                            i + 1,
                        ),
                    )
                });
                return None;
            },
            Some(total) => {
                sum = total;
            },
        }
        i += 1;
    }
    proof {
        crate::amount::lemma_trunc_div_bounds(sum as int, just_returns.len() as int);
    }
    Some(sum / (just_returns.len() as i128))
}

} // verus!
