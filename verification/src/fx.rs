//! Conversion of prices into the reporting currency.

use crate::amount::{checked_quotient, fits_i64, trunc_div, Day, RATE_UNITS};
use crate::text::{occurs, text_contains};
use crate::unrealized::{price_at, price_on, PriceHistory};
use vstd::prelude::*;
use vstd::string::*;

verus! {

/// The currency in which a market quotes.
#[derive(Clone, Copy, Debug, PartialEq, Eq, Structural)]
pub enum Currency {
    /// Canadian dollars.
    Cad,
    /// Euros.
    Eur,
    /// Hundredths of the reporting currency.
    Pence,
    /// US dollars.
    Usd,
}

/// Why a price could not be converted.
#[derive(Clone, Copy, Debug, PartialEq, Eq, Structural)]
pub enum FxError {
    /// There is no rate for the currency on the day.
    MissingRate,
    /// The rate for the currency on the day is zero.
    ZeroRate,
    /// The converted price does not fit in 64 bits.
    Overflow,
}

/// Whether a ticker bears the suffix of a market that quotes in euros.
pub open spec fn euro_listed(ticker: Seq<char>) -> bool {
    occurs(ticker, ".AS"@) || occurs(ticker, ".DE"@) || occurs(ticker, ".MC"@) || occurs(
        ticker,
        ".PA"@,
    ) || occurs(ticker, ".SW"@) || occurs(ticker, ".MI"@) || occurs(ticker, ".LS"@) || occurs(
        ticker,
        ".AT"@,
    ) || occurs(ticker, ".BE"@)
}

/// The currency of a ticker, by the suffix of its market: Toronto first,
/// then the euro markets, then London; anything else is quoted in US dollars.
pub open spec fn currency_of(ticker: Seq<char>) -> Currency {
    if occurs(ticker, ".TO"@) {
        Currency::Cad
    } else if euro_listed(ticker) {
        Currency::Eur
    } else if occurs(ticker, ".L"@) {
        Currency::Pence
    } else {
        Currency::Usd
    }
}

/// The name under which the rates of a currency are kept.
pub open spec fn pair_of(currency: Currency) -> Seq<char> {
    match currency {
        Currency::Cad => "GBPCAD"@,
        Currency::Eur => "GBPEUR"@,
        Currency::Pence => "GBPGBP"@,
        Currency::Usd => "GBPUSD"@,
    }
}

/// A price in the reporting currency: a price in hundredths is divided by a
/// hundred, any other by the day's rate, which says how many units of the
/// foreign currency one unit of the reporting currency buys. Quotients are
/// rounded toward zero.
pub open spec fn converted(
    ticker: Seq<char>,
    date: Day,
    price: i64,
    fx_history: Seq<PriceHistory>,
) -> Result<i64, FxError> {
    if currency_of(ticker) == Currency::Pence {
        Ok(trunc_div(price as int, 100) as i64)
    } else {
        match price_on(fx_history, pair_of(currency_of(ticker)), date) {
            None => Err(FxError::MissingRate),
            Some(rate) => if rate == 0 {
                Err(FxError::ZeroRate)
            } else if !fits_i64(trunc_div(price * RATE_UNITS, rate as int)) {
                Err(FxError::Overflow)
            } else {
                Ok(trunc_div(price * RATE_UNITS, rate as int) as i64)
            },
        }
    }
}

/// Whether a ticker bears the suffix of a market that quotes in euros.
fn is_euro_listed(ticker: &str) -> (r: bool)
    ensures
        r == euro_listed(ticker@),
{
    text_contains(ticker, ".AS") || text_contains(ticker, ".DE") || text_contains(ticker, ".MC")
        || text_contains(ticker, ".PA") || text_contains(ticker, ".SW") || text_contains(
        ticker,
        ".MI",
    ) || text_contains(ticker, ".LS") || text_contains(ticker, ".AT") || text_contains(
        ticker,
        ".BE",
    )
}

/// The currency in which a ticker is quoted.
pub fn quote_currency(ticker: &String) -> (r: Currency)
    ensures
        r == currency_of(ticker@),
{
    let text = ticker.as_str();
    if text_contains(text, ".TO") {
        Currency::Cad
    } else if is_euro_listed(text) {
        Currency::Eur
    } else if text_contains(text, ".L") {
        Currency::Pence
    } else {
        Currency::Usd
    }
}

/// Converts a price of a ticker on a day into the reporting currency, where
/// it can be converted. Where it cannot, for want of a rate, for a rate of
/// zero or because the result does not fit, the price is left as it was.
pub fn try_fx_adjust(
    ticker: &String,
    matcher_date: Day,
    price: &mut i64,
    fx_history: &Vec<PriceHistory>,
) -> (r: Result<(), FxError>)
    ensures
        match converted(ticker@, matcher_date, *old(price), fx_history@) {
            Ok(p) => r.is_ok() && *final(price) == p,
            Err(e) => r == Err::<(), FxError>(e) && *final(price) == *old(price),
        },
{
    let pair = match quote_currency(ticker) {
        Currency::Pence => {
            proof {
                crate::amount::lemma_trunc_div_bounds(*price as int, 100);
            }
            let hundredth: i64 = *price / 100;
            *price = hundredth;
            return Ok(());
        },
        Currency::Cad => String::from_str("GBPCAD"),
        Currency::Eur => String::from_str("GBPEUR"),
        Currency::Usd => String::from_str("GBPUSD"),
    };
    let rate = match price_at(fx_history, &pair, matcher_date) {
        None => {
            return Err(FxError::MissingRate);
        },
        Some(r) => r,
    };
    if rate == 0 {
        return Err(FxError::ZeroRate);
    }
    let scaled: i128 = *price as i128 * RATE_UNITS as i128;
    match checked_quotient(scaled, rate as i128) {
        None => Err(FxError::Overflow),
        Some(q) => if q < i64::MIN as i128 || q > i64::MAX as i128 {
            Err(FxError::Overflow)
        } else {
            *price = q as i64;
            Ok(())
        },
    }
}

/// Converts a price of a ticker on a day into the reporting currency. The
/// price must be one that can be converted: there is a rate for the
/// ticker's currency on the day, the rate is not zero, and the converted
/// price fits in 64 bits.
pub fn fx_adjust(
    ticker: &String,
    matcher_date: Day,
    price: &mut i64,
    fx_history: &Vec<PriceHistory>,
)
    requires
        converted(ticker@, matcher_date, *old(price), fx_history@).is_ok(),
    ensures
        Ok::<i64, FxError>(*final(price)) == converted(
            ticker@,
            matcher_date,
            *old(price),
            fx_history@,
        ),
{
    let _ = try_fx_adjust(ticker, matcher_date, price, fx_history);
}

} // verus!
