//! Daily unrealized returns from position snapshots, prices and dividends.

use crate::amount::{
    checked_difference, checked_product, checked_quotient, checked_sum, fits_i128, product,
    trunc_div, Day, PERCENT_UNITS,
};
use crate::ledger::Holding;
use crate::series::{lookup, value_on};
use vstd::prelude::*;

verus! {

/// The prices of one ticker, by day.
#[derive(Clone, Debug, PartialEq, Eq)]
pub struct PriceHistory {
    pub ticker: String,
    pub prices: Vec<(Day, i64)>,
}

/// Why no returns could be computed.
#[derive(Clone, Copy, Debug, PartialEq, Eq, Structural)]
pub enum ReturnError {
    /// The calendar has no day.
    EmptyHistory,
    /// Some ticker that is held has no price history at all.
    MissingPriceHistory,
    /// Some sum of amounts does not fit in 128 bits.
    Overflow,
    /// The cost basis summed over all days is zero.
    NoExposure,
    /// On some day the cost basis valued so far is zero.
    ZeroCostBasis,
}

/// The snapshots of a calendar as values: each day with what is held on it.
pub open spec fn snapshots(history: Seq<(Day, Vec<Holding>)>) -> Seq<(Day, Seq<Holding>)> {
    Seq::new(history.len(), |i: int| (history[i].0, history[i].1@))
}

/// The price history of a ticker: that of the first entry for it.
pub open spec fn history_of(prices: Seq<PriceHistory>, ticker: Seq<char>) -> Option<
    Seq<(Day, i64)>,
>
    decreases prices.len(),
{
    if prices.len() == 0 {
        None
    } else if prices[0].ticker@ == ticker {
        Some(prices[0].prices@)
    } else {
        history_of(prices.drop_first(), ticker)
    }
}

/// The price of a ticker on a day, if its history has one.
pub open spec fn price_on(prices: Seq<PriceHistory>, ticker: Seq<char>, day: Day) -> Option<i64> {
    match history_of(prices, ticker) {
        None => None,
        Some(history) => value_on(history, day),
    }
}

/// Every ticker held in any snapshot has a price history.
pub open spec fn listed(history: Seq<(Day, Seq<Holding>)>, prices: Seq<PriceHistory>) -> bool {
    forall|i: int, k: int|
        0 <= i < history.len() && 0 <= k < history[i].1.len() ==> history_of(
            prices,
            (#[trigger] history[i].1[k]).ticker@,
        ).is_some()
}

/// Every holding has a price on the day.
pub open spec fn all_priced(holdings: Seq<Holding>, prices: Seq<PriceHistory>, day: Day) -> bool {
    forall|k: int|
        0 <= k < holdings.len() ==> price_on(prices, (#[trigger] holdings[k]).ticker@, day).is_some()
}

/// The cost basis of the first `count` holdings: the sum of quantity times
/// average cost.
pub open spec fn basis_to(holdings: Seq<Holding>, count: int) -> int
    decreases count,
{
    if count <= 0 {
        0
    } else {
        basis_to(holdings, count - 1) + holdings[count - 1].position.quantity * holdings[count
            - 1].position.average_cost
    }
}

/// The cost basis of a portfolio.
pub open spec fn basis(holdings: Seq<Holding>) -> int {
    basis_to(holdings, holdings.len() as int)
}

/// The market value of the first `count` holdings on a day: the sum of
/// quantity times the day's price.
pub open spec fn value_to(
    holdings: Seq<Holding>,
    prices: Seq<PriceHistory>,
    day: Day,
    count: int,
) -> int
    decreases count,
{
    if count <= 0 {
        0
    } else {
        value_to(holdings, prices, day, count - 1) + holdings[count - 1].position.quantity
            * price_on(prices, holdings[count - 1].ticker@, day).unwrap()
    }
}

/// The market value of a portfolio on a day.
pub open spec fn value(holdings: Seq<Holding>, prices: Seq<PriceHistory>, day: Day) -> int {
    value_to(holdings, prices, day, holdings.len() as int)
}

/// The place of the snapshot that is in force on day `i`: the last one at or
/// before it that holds anything, and the first of all where none does.
pub open spec fn in_force(history: Seq<(Day, Seq<Holding>)>, i: int) -> int
    decreases i,
{
    if i <= 0 {
        0
    } else if history[i].1.len() > 0 {
        i
    } else {
        in_force(history, i - 1)
    }
}

/// The portfolio on day `i`, with unchanged days filled from the day before.
pub open spec fn carried(history: Seq<(Day, Seq<Holding>)>, i: int) -> Seq<Holding> {
    history[in_force(history, i)].1
}

/// The cost basis summed over the first `count` days.
pub open spec fn volume_to(history: Seq<(Day, Seq<Holding>)>, count: int) -> int
    decreases count,
{
    if count <= 0 {
        0
    } else {
        volume_to(history, count - 1) + basis(carried(history, count - 1))
    }
}

/// The lifetime sum of cost basis: the weight against which dividends are
/// spread.
pub open spec fn volume_total(history: Seq<(Day, Seq<Holding>)>) -> int {
    volume_to(history, history.len() as int)
}

/// Cost basis and market value on day `i`. On a day on which every holding
/// has a price they are those of the portfolio; on any other day they are
/// those of the day before, and zero where there is no day before.
pub open spec fn valuation_on(
    history: Seq<(Day, Seq<Holding>)>,
    prices: Seq<PriceHistory>,
    i: int,
) -> (int, int)
    decreases i + 1,
{
    if i < 0 {
        (0, 0)
    } else if all_priced(carried(history, i), prices, history[i].0) {
        (basis(carried(history, i)), value(carried(history, i), prices, history[i].0))
    } else {
        valuation_on(history, prices, i - 1)
    }
}

/// The valued cost basis summed over the first `count` days.
pub open spec fn covered_to(
    history: Seq<(Day, Seq<Holding>)>,
    prices: Seq<PriceHistory>,
    count: int,
) -> int
    decreases count,
{
    if count <= 0 {
        0
    } else {
        covered_to(history, prices, count - 1) + valuation_on(history, prices, count - 1).0
    }
}

/// The part of the dividends that counts toward a day: the dividends times
/// the share of the lifetime volume that has been covered by that day.
pub open spec fn dividend_share_of(dividends: int, covered: int, volume: int) -> int {
    trunc_div(dividends * covered, volume)
}

/// The return in percent units: a hundred times gain over cost basis, the
/// gain being market value less cost basis plus the dividend share.
pub open spec fn return_percent(cost_basis: int, market_value: int, share: int) -> int {
    trunc_div(100 * PERCENT_UNITS * (market_value - cost_basis + share), cost_basis)
}

/// The dividend share of day `i`.
pub open spec fn share_on(
    history: Seq<(Day, Seq<Holding>)>,
    prices: Seq<PriceHistory>,
    dividends: int,
    i: int,
) -> int {
    dividend_share_of(dividends, covered_to(history, prices, i + 1), volume_total(history))
}

/// The unrealized return of day `i` in percent units.
pub open spec fn percent_on(
    history: Seq<(Day, Seq<Holding>)>,
    prices: Seq<PriceHistory>,
    dividends: int,
    i: int,
) -> int {
    return_percent(
        valuation_on(history, prices, i).0,
        valuation_on(history, prices, i).1,
        share_on(history, prices, dividends, i),
    )
}

/// Every partial sum of a portfolio's cost basis fits in 128 bits.
pub open spec fn basis_fits(holdings: Seq<Holding>) -> bool {
    forall|k: int| 0 <= k <= holdings.len() ==> fits_i128(#[trigger] basis_to(holdings, k))
}

/// Every partial sum of a portfolio's market value on a day fits in 128 bits.
pub open spec fn value_fits(holdings: Seq<Holding>, prices: Seq<PriceHistory>, day: Day) -> bool {
    forall|k: int|
        0 <= k <= holdings.len() ==> fits_i128(#[trigger] value_to(holdings, prices, day, k))
}

/// The sums of day `i` fit in 128 bits: the cost basis, the market value
/// where every holding has a price, and the running sums up to that day.
pub open spec fn day_fits(
    history: Seq<(Day, Seq<Holding>)>,
    prices: Seq<PriceHistory>,
    i: int,
) -> bool {
    &&& basis_fits(carried(history, i))
    &&& all_priced(carried(history, i), prices, history[i].0) ==> value_fits(
        carried(history, i),
        prices,
        history[i].0,
    )
    &&& fits_i128(volume_to(history, i + 1))
    &&& fits_i128(covered_to(history, prices, i + 1))
}

/// The sums of every day fit in 128 bits.
pub open spec fn sums_fit(history: Seq<(Day, Seq<Holding>)>, prices: Seq<PriceHistory>) -> bool {
    forall|i: int| 0 <= i < history.len() ==> #[trigger] day_fits(history, prices, i)
}

/// The steps from the valuation of day `i` to its percentage fit in 128 bits.
pub open spec fn percent_fits(
    history: Seq<(Day, Seq<Holding>)>,
    prices: Seq<PriceHistory>,
    dividends: int,
    i: int,
) -> bool {
    let v = valuation_on(history, prices, i);
    let share = share_on(history, prices, dividends, i);
    &&& fits_i128(dividends * covered_to(history, prices, i + 1))
    &&& fits_i128(share)
    &&& fits_i128(v.1 - v.0)
    &&& fits_i128(v.1 - v.0 + share)
    &&& fits_i128(100 * PERCENT_UNITS * (v.1 - v.0 + share))
    &&& fits_i128(return_percent(v.0, v.1, share))
}

/// The percentage of every day fits in 128 bits.
pub open spec fn percents_fit(
    history: Seq<(Day, Seq<Holding>)>,
    prices: Seq<PriceHistory>,
    dividends: int,
) -> bool {
    forall|i: int| 0 <= i < history.len() ==> #[trigger] percent_fits(history, prices, dividends, i)
}

/// On every day the valued cost basis is not zero.
pub open spec fn always_invested(
    history: Seq<(Day, Seq<Holding>)>,
    prices: Seq<PriceHistory>,
) -> bool {
    forall|i: int| 0 <= i < history.len() ==> (#[trigger] valuation_on(history, prices, i)).0 != 0
}

/// What stands in the way of computing returns, if anything: the first of
/// the errors, in the order of their declaration but for `Overflow`, which
/// comes both from the sums and, later, from the percentages.
pub open spec fn obstacle(
    history: Seq<(Day, Seq<Holding>)>,
    prices: Seq<PriceHistory>,
    dividends: int,
) -> Option<ReturnError> {
    if history.len() == 0 {
        Some(ReturnError::EmptyHistory)
    } else if !listed(history, prices) {
        Some(ReturnError::MissingPriceHistory)
    } else if !sums_fit(history, prices) {
        Some(ReturnError::Overflow)
    } else if volume_total(history) == 0 {
        Some(ReturnError::NoExposure)
    } else if !always_invested(history, prices) {
        Some(ReturnError::ZeroCostBasis)
    } else if !percents_fit(history, prices, dividends) {
        Some(ReturnError::Overflow)
    } else {
        None
    }
}

/// The place of the first price history of a ticker.
pub fn find_history(prices: &Vec<PriceHistory>, ticker: &String) -> (r: Option<usize>)
    ensures
        match r {
            Some(i) => i < prices.len() && prices[i as int].ticker@ == ticker@ && history_of(
                prices@,
                ticker@,
            ) == Some(prices[i as int].prices@) && forall|k: int|
                0 <= k < i ==> (#[trigger] prices[k]).ticker@ != ticker@,
            None => history_of(prices@, ticker@).is_none() && forall|k: int|
                0 <= k < prices.len() ==> (#[trigger] prices[k]).ticker@ != ticker@,
        },
{
    let mut i: usize = 0;
    assert(prices@.subrange(0, prices.len() as int) == prices@);
    while i < prices.len()
        invariant
            i <= prices.len(),
            history_of(prices@, ticker@) == history_of(
                prices@.subrange(i as int, prices.len() as int),
                ticker@,
            ),
            forall|k: int| 0 <= k < i ==> (#[trigger] prices[k]).ticker@ != ticker@,
        decreases prices.len() - i,
    {
        let ghost rest = prices@.subrange(i as int, prices.len() as int);
        assert(rest[0] == prices[i as int]);
        if prices[i].ticker == *ticker {
            return Some(i);
        }
        assert(rest.drop_first() == prices@.subrange(i + 1, prices.len() as int));
        i += 1;
    }
    assert(prices@.subrange(i as int, prices.len() as int).len() == 0);
    None
}

/// Whether every ticker held in any snapshot has a price history.
fn is_listed(history: &Vec<(Day, Vec<Holding>)>, prices: &Vec<PriceHistory>) -> (r: bool)
    ensures
        r == listed(snapshots(history@), prices@),
{
    let mut i: usize = 0;
    while i < history.len()
        invariant
            i <= history.len(),
            forall|a: int, k: int|
                0 <= a < i && 0 <= k < snapshots(history@)[a].1.len() ==> history_of(
                    prices@,
                    (#[trigger] snapshots(history@)[a].1[k]).ticker@,
                ).is_some(),
        decreases history.len() - i,
    {
        let holdings = &history[i].1;
        assert(snapshots(history@)[i as int].1 == holdings@);
        let mut k: usize = 0;
        while k < holdings.len()
            invariant
                i < history.len(),
                k <= holdings.len(),
                holdings@ == snapshots(history@)[i as int].1,
                forall|a: int, b: int|
                    0 <= a < i && 0 <= b < snapshots(history@)[a].1.len() ==> history_of(
                        prices@,
                        (#[trigger] snapshots(history@)[a].1[b]).ticker@,
                    ).is_some(),
                forall|b: int|
                    0 <= b < k ==> history_of(
                        prices@,
                        (#[trigger] snapshots(history@)[i as int].1[b]).ticker@,
                    ).is_some(),
            decreases holdings.len() - k,
        {
            if find_history(prices, &holdings[k].ticker).is_none() {
                assert(history_of(
                    prices@,
                    snapshots(history@)[i as int].1[k as int].ticker@,
                ).is_none());
                return false;
            }
            k += 1;
        }
        i += 1;
    }
    true
}

/// The price of a ticker on a day, if its history has one.
pub fn price_at(prices: &Vec<PriceHistory>, ticker: &String, day: Day) -> (r: Option<i64>)
    ensures
        r == price_on(prices@, ticker@, day),
{
    match find_history(prices, ticker) {
        None => None,
        Some(at) => lookup(&prices[at].prices, day),
    }
}

/// The day's price of every holding, where every holding has one.
fn prices_on(holdings: &Vec<Holding>, prices: &Vec<PriceHistory>, day: Day) -> (r: Option<
    Vec<i64>,
>)
    ensures
        match r {
            Some(found) => {
                &&& all_priced(holdings@, prices@, day)
                &&& found.len() == holdings.len()
                &&& forall|k: int|
                    0 <= k < holdings.len() ==> price_on(prices@, holdings[k].ticker@, day)
                        == Some(#[trigger] found[k])
            },
            None => !all_priced(holdings@, prices@, day),
        },
{
    let mut found: Vec<i64> = Vec::new();
    let mut k: usize = 0;
    while k < holdings.len()
        invariant
            k <= holdings.len(),
            found.len() == k,
            forall|b: int|
                0 <= b < k ==> price_on(prices@, (#[trigger] holdings[b]).ticker@, day) == Some(
                    found[b],
                ),
        decreases holdings.len() - k,
    {
        let price = price_at(prices, &holdings[k].ticker, day);
        match price {
            None => {
                assert(price_on(prices@, holdings[k as int].ticker@, day).is_none());
                return None;
            },
            Some(p) => {
                found.push(p);
            },
        }
        k += 1;
    }
    Some(found)
}

/// The cost basis of a portfolio, where every partial sum can be held.
fn basis_of(holdings: &Vec<Holding>) -> (r: Option<i128>)
    ensures
        basis_fits(holdings@) ==> r == Some(basis(holdings@) as i128),
        !basis_fits(holdings@) ==> r.is_none(),
{
    let mut sum: i128 = 0;
    let mut k: usize = 0;
    while k < holdings.len()
        invariant
            k <= holdings.len(),
            sum == basis_to(holdings@, k as int),
            forall|b: int| 0 <= b <= k ==> fits_i128(#[trigger] basis_to(holdings@, b)),
        decreases holdings.len() - k,
    {
        let term: i128 = product(holdings[k].position.quantity, holdings[k].position.average_cost);
        match checked_sum(sum, term) {
            None => {
                assert(!fits_i128(basis_to(holdings@, k + 1)));
                return None;
            },
            Some(next) => {
                sum = next;
            },
        }
        k += 1;
    }
    Some(sum)
}

/// The market value of a portfolio at the given prices, where every partial
/// sum can be held.
fn value_of(
    holdings: &Vec<Holding>,
    found: &Vec<i64>,
    prices: &Vec<PriceHistory>,
    day: Day,
) -> (r: Option<i128>)
    requires
        found.len() == holdings.len(),
        forall|k: int|
            0 <= k < holdings.len() ==> price_on(prices@, holdings[k].ticker@, day) == Some(
                #[trigger] found[k],
            ),
    ensures
        value_fits(holdings@, prices@, day) ==> r == Some(value(holdings@, prices@, day) as i128),
        !value_fits(holdings@, prices@, day) ==> r.is_none(),
{
    let mut sum: i128 = 0;
    let mut k: usize = 0;
    while k < holdings.len()
        invariant
            k <= holdings.len(),
            found.len() == holdings.len(),
            forall|b: int|
                0 <= b < holdings.len() ==> price_on(prices@, holdings[b].ticker@, day) == Some(
                    #[trigger] found[b],
                ),
            sum == value_to(holdings@, prices@, day, k as int),
            forall|b: int|
                0 <= b <= k ==> fits_i128(#[trigger] value_to(holdings@, prices@, day, b)),
        decreases holdings.len() - k,
    {
        let term: i128 = product(holdings[k].position.quantity, found[k]);
        assert(price_on(prices@, holdings[k as int].ticker@, day) == Some(found[k as int]));
        match checked_sum(sum, term) {
            None => {
                assert(!fits_i128(value_to(holdings@, prices@, day, k + 1)));
                return None;
            },
            Some(next) => {
                sum = next;
            },
        }
        k += 1;
    }
    Some(sum)
}

/// The part of a dividend total that counts toward a day on which `covered`
/// of the lifetime `volume` has been seen: the total times covered over
/// volume, rounded toward zero. There is none where the volume is zero or the
/// product does not fit in 128 bits.
pub fn dividend_share(dividends: i128, covered: i128, volume: i128) -> (r: Option<i128>)
    ensures
        r.is_some() <==> volume != 0 && fits_i128(dividends * covered) && fits_i128(
            dividend_share_of(dividends as int, covered as int, volume as int),
        ),
        r.is_some() ==> r.unwrap() == dividend_share_of(
            dividends as int,
            covered as int,
            volume as int,
        ),
{
    match checked_product(dividends, covered) {
        None => None,
        Some(weighted) => checked_quotient(weighted, volume),
    }
}

/// The return of one day in percent units, from its cost basis, its market
/// value and its dividend share. There is none where the cost basis is zero
/// or a step does not fit in 128 bits.
pub fn daily_return(cost_basis: i128, market_value: i128, share: i128) -> (r: Option<i128>)
    ensures
        r.is_some() <==> {
            &&& cost_basis != 0
            &&& fits_i128(market_value - cost_basis)
            &&& fits_i128(market_value - cost_basis + share)
            &&& fits_i128(100 * PERCENT_UNITS * (market_value - cost_basis + share))
            &&& fits_i128(return_percent(cost_basis as int, market_value as int, share as int))
        },
        r.is_some() ==> r.unwrap() == return_percent(
            cost_basis as int,
            market_value as int,
            share as int,
        ),
{
    let factor: i128 = 100 * PERCENT_UNITS;
    match checked_difference(market_value, cost_basis) {
        None => None,
        Some(gain) => match checked_sum(gain, share) {
            None => None,
            Some(total) => match checked_product(factor, total) {
                None => None,
                Some(scaled) => checked_quotient(scaled, cost_basis),
            },
        },
    }
}

/// Computes the daily unrealized return and the daily cost basis and market
/// value from the snapshots of a calendar.
///
/// A day without a snapshot of its own carries the last snapshot that holds
/// anything. The lifetime volume is the cost basis summed over all days. On a
/// day on which every holding has a price, cost basis and market value are
/// those of the carried portfolio; on any other day those of the day before
/// are used again. The return of a day is a hundred times the gain over the
/// cost basis, in percent units, where the gain is market value less cost
/// basis plus the share of the dividends that the volume covered so far
/// makes up of the lifetime volume.
pub fn calc_unreal_returns(
    portfolio_history: &Vec<(Day, Vec<Holding>)>,
    complete_prices: &Vec<PriceHistory>,
    total_dividends: i128,
) -> (r: Result<(Vec<(Day, i128)>, Vec<(Day, (i128, i128))>), ReturnError>)
    ensures
        match r {
            Ok((percents, valuations)) => {
                &&& obstacle(snapshots(portfolio_history@), complete_prices@, total_dividends as int).is_none()
                &&& percents.len() == portfolio_history.len()
                &&& valuations.len() == portfolio_history.len()
                &&& forall|i: int|
                    0 <= i < portfolio_history.len() ==> (#[trigger] percents[i]).0
                        == portfolio_history[i].0 && percents[i].1 == percent_on(
                        snapshots(portfolio_history@),
                        complete_prices@,
                        total_dividends as int,
                        i,
                    )
                &&& forall|i: int|
                    0 <= i < portfolio_history.len() ==> (#[trigger] valuations[i]).0
                        == portfolio_history[i].0 && valuations[i].1.0 == valuation_on(
                        snapshots(portfolio_history@),
                        complete_prices@,
                        i,
                    ).0 && valuations[i].1.1 == valuation_on(
                        snapshots(portfolio_history@),
                        complete_prices@,
                        i,
                    ).1
            },
            Err(e) => obstacle(snapshots(portfolio_history@), complete_prices@, total_dividends as int)
                == Some(e),
        },
{
    let ghost h = snapshots(portfolio_history@);
    let ghost p = complete_prices@;
    let ghost d = total_dividends as int;
    let n: usize = portfolio_history.len();
    if n == 0 {
        return Err(ReturnError::EmptyHistory);
    }
    if !is_listed(portfolio_history, complete_prices) {
        return Err(ReturnError::MissingPriceHistory);
    }
    let mut valuations: Vec<(Day, (i128, i128))> = Vec::new();
    let mut covereds: Vec<i128> = Vec::new();
    let mut volume: i128 = 0;
    let mut covered: i128 = 0;
    let mut last: (i128, i128) = (0, 0);
    let mut current: usize = 0;
    let mut i: usize = 0;
    while i < n
        invariant
            n == portfolio_history.len(),
            h == snapshots(portfolio_history@),
            p == complete_prices@,
            listed(h, p),
            i <= n,
            current < n,
            i > 0 ==> current == in_force(h, i - 1),
            i == 0 ==> current == 0,
            forall|a: int| 0 <= a < i ==> #[trigger] day_fits(h, p, a),
            volume == volume_to(h, i as int),
            covered == covered_to(h, p, i as int),
            last.0 == valuation_on(h, p, i - 1).0,
            last.1 == valuation_on(h, p, i - 1).1,
            valuations.len() == i,
            covereds.len() == i,
            forall|a: int|
                0 <= a < i ==> (#[trigger] valuations[a]).0 == h[a].0 && valuations[a].1.0
                    == valuation_on(h, p, a).0 && valuations[a].1.1 == valuation_on(h, p, a).1,
            forall|a: int| 0 <= a < i ==> #[trigger] covereds[a] == covered_to(h, p, a + 1),
        decreases n - i,
    {
        if i > 0 && portfolio_history[i].1.len() > 0 {
            current = i;
        }
        assert(current == in_force(h, i as int));
        let day: Day = portfolio_history[i].0;
        let holdings = &portfolio_history[current].1;
        assert(holdings@ == carried(h, i as int));
        let whole = match basis_of(holdings) {
            None => {
                assert(!day_fits(h, p, i as int));
                return Err(ReturnError::Overflow);
            },
            Some(b) => b,
        };
        match checked_sum(volume, whole) {
            None => {
                assert(!day_fits(h, p, i as int));
                return Err(ReturnError::Overflow);
            },
            Some(next) => {
                volume = next;
            },
        }
        match prices_on(holdings, complete_prices, day) {
            None => {},
            Some(found) => {
                match value_of(holdings, &found, complete_prices, day) {
                    None => {
                        assert(!day_fits(h, p, i as int));
                        return Err(ReturnError::Overflow);
                    },
                    Some(worth) => {
                        last = (whole, worth);
                    },
                }
            },
        }
        assert(last.0 == valuation_on(h, p, i as int).0);
        assert(last.1 == valuation_on(h, p, i as int).1);
        match checked_sum(covered, last.0) {
            None => {
                assert(!day_fits(h, p, i as int));
                return Err(ReturnError::Overflow);
            },
            Some(next) => {
                covered = next;
            },
        }
        valuations.push((day, last));
        covereds.push(covered);
        assert(day_fits(h, p, i as int));
        i += 1;
    }
    assert(sums_fit(h, p));
    if volume == 0 {
        return Err(ReturnError::NoExposure);
    }
    let mut a: usize = 0;
    while a < n
        invariant
            a <= n,
            valuations.len() == n,
            n == h.len(),
            n > 0,
            h == snapshots(portfolio_history@),
            p == complete_prices@,
            listed(h, p),
            sums_fit(h, p),
            volume_total(h) != 0,
            forall|b: int| 0 <= b < n ==> (#[trigger] valuations[b]).1.0 == valuation_on(h, p, b).0,
            forall|b: int| 0 <= b < a ==> (#[trigger] valuation_on(h, p, b)).0 != 0,
        decreases n - a,
    {
        if valuations[a].1.0 == 0 {
            assert(valuation_on(h, p, a as int).0 == 0);
            return Err(ReturnError::ZeroCostBasis);
        }
        a += 1;
    }
    assert(always_invested(h, p));
    let mut percents: Vec<(Day, i128)> = Vec::new();
    let mut c: usize = 0;
    while c < n
        invariant
            c <= n,
            n == h.len(),
            n > 0,
            h == snapshots(portfolio_history@),
            p == complete_prices@,
            listed(h, p),
            sums_fit(h, p),
            d == total_dividends,
            volume == volume_total(h),
            volume != 0,
            valuations.len() == n,
            covereds.len() == n,
            percents.len() == c,
            always_invested(h, p),
            forall|b: int|
                0 <= b < n ==> (#[trigger] valuations[b]).0 == h[b].0 && valuations[b].1.0
                    == valuation_on(h, p, b).0 && valuations[b].1.1 == valuation_on(h, p, b).1,
            forall|b: int| 0 <= b < n ==> #[trigger] covereds[b] == covered_to(h, p, b + 1),
            forall|b: int| 0 <= b < c ==> #[trigger] percent_fits(h, p, d, b),
            forall|b: int|
                0 <= b < c ==> (#[trigger] percents[b]).0 == h[b].0 && percents[b].1 == percent_on(
                    h,
                    p,
                    d,
                    b,
                ),
        decreases n - c,
    {
        let day: Day = valuations[c].0;
        let cost_basis: i128 = valuations[c].1.0;
        let market_value: i128 = valuations[c].1.1;
        assert(valuation_on(h, p, c as int).0 != 0);
        let share = match dividend_share(total_dividends, covereds[c], volume) {
            None => {
                assert(!percent_fits(h, p, d, c as int));
                return Err(ReturnError::Overflow);
            },
            Some(s) => s,
        };
        let percent = match daily_return(cost_basis, market_value, share) {
            None => {
                assert(!percent_fits(h, p, d, c as int));
                return Err(ReturnError::Overflow);
            },
            Some(v) => v,
        };
        percents.push((day, percent));
        assert(percent_fits(h, p, d, c as int));
        c += 1;
    }
    assert(percents_fit(h, p, d));
    Ok((percents, valuations))
}

} // verus!
