//! Portfolio accounting and returns over exact integer amounts.
//!
//! A ledger folds filled orders into positions at weighted-average cost and
//! reports what each order moves in cash and what each exit realizes. From
//! the snapshots of the ledger, a price for each ticker and day, and the
//! dividends received, the crate computes the unrealized return of every
//! day; from the realized amounts a running realized return; and from the
//! cash flows a money-weighted rate of return.
//!
//! Nothing here is a floating-point number. Quantities and prices are
//! signed counts of a smallest unit that the caller chooses; an amount of
//! money is a product of the two, held in 128 bits, so that no product is
//! rounded. Rates count in [`amount::RATE_UNITS`], percentages in
//! [`amount::PERCENT_UNITS`]. Every quotient is rounded toward zero. A
//! calendar day is its number of days from 1970-01-01.

pub mod amount;
pub mod books;
pub mod broker;
pub mod calendar;
pub mod fx;
pub mod intake;
pub mod ledger;
pub mod ledger_laws;
pub mod mwrr;
pub mod prices;
pub mod realized;
pub mod series;
pub mod stats;
pub mod text;
pub mod ticker;
pub mod unrealized;
