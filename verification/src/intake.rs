//! What is done to an order before it reaches the books: its quantity is
//! made sure of, its ticker is converted, and its price is brought into the
//! reporting currency.

use crate::amount::Day;
use crate::broker::{derive_quantity, execution_day, is_filled, quantity_of, Order};
use crate::calendar::parsed_day;
use crate::fx::{converted, try_fx_adjust, FxError};
use crate::ticker::{try_convert_to_yahoo_ticker, yahoo_ticker};
use crate::unrealized::PriceHistory;
use vstd::prelude::*;

verus! {

/// Why an order could not be prepared.
#[derive(Clone, Copy, Debug, PartialEq, Eq, Structural)]
pub enum IntakeError {
    /// The order was filled, yet what it filled cannot be told.
    NoQuantity,
    /// The market of the order's ticker is not known.
    UnknownMarket,
    /// The timestamp of the order names no day.
    InvalidDate,
    /// The price of the order could not be converted.
    Fx(FxError),
}

/// The quantity with which an order goes on: what it filled, and for an
/// order that was not filled and tells no quantity, the quantity it reports.
pub open spec fn intake_quantity(order: Order) -> Result<i64, IntakeError> {
    match quantity_of(order) {
        Some(quantity) => Ok(quantity),
        None => if order.status@ == "FILLED"@ {
            Err(IntakeError::NoQuantity)
        } else {
            Ok(order.filled_quantity)
        },
    }
}

/// Quantity, ticker and price with which an order goes on, or the first
/// thing that stands in the way: the quantity, then the ticker, then the
/// day, then the price.
pub open spec fn intake(order: Order, fx_history: Seq<PriceHistory>) -> Result<
    (i64, Seq<char>, i64),
    IntakeError,
> {
    match intake_quantity(order) {
        Err(e) => Err(e),
        Ok(quantity) => match yahoo_ticker(order.ticker@) {
            None => Err(IntakeError::UnknownMarket),
            Some(ticker) => match parsed_day(order.date_modified@) {
                None => Err(IntakeError::InvalidDate),
                Some(day) => match converted(ticker, day as Day, order.fill_price, fx_history) {
                    Err(e) => Err(IntakeError::Fx(e)),
                    Ok(price) => Ok((quantity, ticker, price)),
                },
            },
        },
    }
}

/// Prepares an order for the books: an order placed by value gets the
/// quantity that it filled, the broker's ticker becomes the market-data
/// ticker, and the price is converted into the reporting currency at the
/// rate of the order's day. Where something stands in the way the order is
/// left as it was.
pub fn prepare_order(order: &mut Order, fx_history: &Vec<PriceHistory>) -> (r: Result<
    (),
    IntakeError,
>)
    ensures
        match intake(*old(order), fx_history@) {
            Ok((quantity, ticker, price)) => {
                &&& r.is_ok()
                &&& final(order).filled_quantity == quantity
                &&& final(order).ticker@ == ticker
                &&& final(order).fill_price == price
                &&& final(order).id == old(order).id
                &&& final(order).date_modified == old(order).date_modified
                &&& final(order).filled_value == old(order).filled_value
                &&& final(order).taxes == old(order).taxes
                &&& final(order).status == old(order).status
            },
            Err(e) => r == Err::<(), IntakeError>(e) && *final(order) == *old(order),
        },
{
    let quantity: i64 = match derive_quantity(order) {
        Some(q) => q,
        None => {
            if is_filled(order) {
                return Err(IntakeError::NoQuantity);
            }
            order.filled_quantity
        },
    };
    let ticker = match try_convert_to_yahoo_ticker(&order.ticker) {
        None => {
            return Err(IntakeError::UnknownMarket);
        },
        Some(t) => t,
    };
    let day = match execution_day(order) {
        None => {
            return Err(IntakeError::InvalidDate);
        },
        Some(d) => d,
    };
    let mut price: i64 = order.fill_price;
    match try_fx_adjust(&ticker, day, &mut price, fx_history) {
        Err(e) => {
            return Err(IntakeError::Fx(e));
        },
        Ok(_) => {},
    }
    order.filled_quantity = quantity;
    order.ticker = ticker;
    order.fill_price = price;
    Ok(())
}

/// Each of the first `count` orders could be prepared, and stands
/// prepared in `after`.
pub open spec fn all_prepared(
    before: Seq<Order>,
    after: Seq<Order>,
    fx_history: Seq<PriceHistory>,
    count: int,
) -> bool {
    forall|i: int|
        0 <= i < count ==> match intake(#[trigger] before[i], fx_history) {
            Ok((quantity, ticker, price)) => {
                &&& after[i].filled_quantity == quantity
                &&& after[i].ticker@ == ticker
                &&& after[i].fill_price == price
                &&& after[i].id == before[i].id
                &&& after[i].date_modified == before[i].date_modified
                &&& after[i].filled_value == before[i].filled_value
                &&& after[i].taxes == before[i].taxes
                &&& after[i].status == before[i].status
            },
            Err(_) => false,
        }
}

/// Prepares every order. The first order that cannot be prepared ends the
/// work with its place and its error; it and the orders after it are left
/// as they were.
pub fn prepare_orders(data: &mut Vec<Order>, fx_history: &Vec<PriceHistory>) -> (r: Result<
    (),
    (usize, IntakeError),
>)
    ensures
        final(data).len() == old(data).len(),
        match r {
            Ok(_) => all_prepared(old(data)@, final(data)@, fx_history@, old(data).len() as int),
            Err((place, e)) => {
                &&& place < old(data).len()
                &&& all_prepared(old(data)@, final(data)@, fx_history@, place as int)
                &&& intake(old(data)[place as int], fx_history@) == Err::<
                    (i64, Seq<char>, i64),
                    IntakeError,
                >(e)
                &&& forall|k: int|
                    place <= k < old(data).len() ==> #[trigger] final(data)[k] == old(data)[k]
            },
        },
{
    let mut i: usize = 0;
    while i < data.len()
        invariant
            i <= data.len(),
            data.len() == old(data).len(),
            all_prepared(old(data)@, data@, fx_history@, i as int),
            forall|k: int| i <= k < data.len() ==> #[trigger] data[k] == old(data)[k],
        decreases data.len() - i,
    {
        let ghost before = data@;
        match prepare_order(&mut data[i], fx_history) {
            Err(e) => {
                assert(data@ =~= before);
                return Err((i, e));
            },
            Ok(_) => {
                assert forall|k: int| 0 <= k < i implies data[k] == before[k] by {}
                assert(all_prepared(old(data)@, data@, fx_history@, i + 1));
            },
        }
        i += 1;
    }
    Ok(())
}

} // verus!
