//! The broker's records of orders and dividends, and the paging through
//! its history.

use crate::amount::{checked_quotient, checked_sum, fits_i128, fits_i64, trunc_div, Day};
use crate::calendar::{parse_day, parsed_day};
use crate::text::{leading, occurs, prefix, text_contains};
use chrono::DateTime;
use std::collections::HashSet;
use vstd::prelude::*;
use vstd::string::*;

verus! {

/// A fee or tax charged on an order.
#[derive(Clone, Debug, PartialEq, Eq)]
pub struct Fee {
    pub name: String,
    pub quantity: i64,
}

/// An order as the broker reports it. Quantity and price are in the
/// caller's units, the value in amount units (their product).
#[derive(Clone, Debug, PartialEq, Eq)]
pub struct Order {
    pub id: u64,
    pub ticker: String,
    pub date_modified: String,
    pub filled_quantity: i64,
    pub fill_price: i64,
    pub filled_value: i128,
    pub taxes: Vec<Fee>,
    pub status: String,
}

/// One page of orders.
#[derive(Clone, Debug, PartialEq, Eq)]
pub struct Items {
    pub items: Vec<Order>,
}

/// A dividend payment as the broker reports it.
#[derive(Clone, Debug, PartialEq, Eq)]
pub struct Dividend {
    pub ticker: String,
    pub amount: i128,
    pub paid_on: String,
}

/// One page of dividends, with the path of the next page where there is one.
#[derive(Clone, Debug, PartialEq, Eq)]
pub struct Dividends {
    pub items: Vec<Dividend>,
    pub next_page_path: Option<String>,
}

/// A decoded page of either kind.
#[derive(Clone, Debug, PartialEq, Eq)]
pub enum CallResponse {
    Orders(Items),
    Divis(Dividends),
}

/// Which kind of page a call asks for.
#[derive(Clone, Copy, Debug, PartialEq, Eq, Structural)]
pub enum ResponseType {
    Orders,
    Divis,
}


/// The seconds to wait before a call that was refused for its rate is made
/// again.
pub const RETRY_SECONDS: u64 = 60;

/// The number of times that one call is made again before it is given up.
pub const MAX_RETRIES: u32 = 5;

/// The cursor that marks the end of the history.
pub open spec fn complete() -> Seq<char> {
    "complete"@
}

/// The milliseconds from 1970-01-01 00:00 UTC to the instant that a text in
/// the form of RFC 3339 names, where the text names an instant at all.
pub uninterp spec fn rfc3339_millis(text: Seq<char>) -> Option<i64>;

/// The character of a decimal digit.
pub open spec fn digit(d: int) -> char {
    if d == 0 {
        '0'
    } else if d == 1 {
        '1'
    } else if d == 2 {
        '2'
    } else if d == 3 {
        '3'
    } else if d == 4 {
        '4'
    } else if d == 5 {
        '5'
    } else if d == 6 {
        '6'
    } else if d == 7 {
        '7'
    } else if d == 8 {
        '8'
    } else {
        '9'
    }
}

/// The decimal digits of a natural number, the most significant first.
pub open spec fn digits(n: nat) -> Seq<char>
    decreases n,
{
    if n < 10 {
        seq![digit(n as int)]
    } else {
        digits(n / 10).push(digit((n % 10) as int))
    }
}

/// A whole number in decimal, with a minus sign where it is negative.
pub open spec fn decimal(n: int) -> Seq<char> {
    if n < 0 {
        seq!['-'] + digits((-n) as nat)
    } else {
        digits(n as nat)
    }
}

/// Reads an instant with `chrono::DateTime::parse_from_rfc3339` and counts
/// it in milliseconds with `timestamp_millis`. Nothing is claimed of the
/// result but that it depends on the text alone.
#[verifier::external_body]
fn parse_millis(text: &str) -> (r: Option<i64>)
    ensures
        r == rfc3339_millis(text@),
{
    match DateTime::parse_from_rfc3339(text) {
        Ok(instant) => Some(instant.timestamp_millis()),
        Err(_) => None,
    }
}

/// The text of one decimal digit.
fn digit_text(d: u8) -> (r: &'static str)
    requires
        d < 10,
    ensures
        r@ == seq![digit(d as int)],
{
    proof {
        reveal_strlit("0");
        reveal_strlit("1");
        reveal_strlit("2");
        reveal_strlit("3");
        reveal_strlit("4");
        reveal_strlit("5");
        reveal_strlit("6");
        reveal_strlit("7");
        reveal_strlit("8");
        reveal_strlit("9");
    }
    let text = if d == 0 {
        "0"
    } else if d == 1 {
        "1"
    } else if d == 2 {
        "2"
    } else if d == 3 {
        "3"
    } else if d == 4 {
        "4"
    } else if d == 5 {
        "5"
    } else if d == 6 {
        "6"
    } else if d == 7 {
        "7"
    } else if d == 8 {
        "8"
    } else {
        "9"
    };
    assert(text@ =~= seq![digit(d as int)]);
    text
}

/// The digits that stand for a list of digit values given from the least
/// significant on.
pub open spec fn trailing(values: Seq<u8>) -> Seq<char> {
    Seq::new(values.len(), |i: int| digit(values[values.len() - 1 - i] as int))
}

/// Writes a whole number in decimal.
pub fn decimal_text(n: i64) -> (r: String)
    ensures
        r@ == decimal(n as int),
{
    let mut out = if n < 0 {
        String::from_str("-")
    } else {
        String::new()
    };
    proof {
        reveal_strlit("-");
        assert("-"@ =~= seq!['-']);
    }
    let size: u64 = if n < 0 {
        (-(n as i128)) as u64
    } else {
        n as u64
    };
    let mut rest: u64 = size;
    let mut low: Vec<u8> = Vec::new();
    while rest >= 10
        invariant
            digits(size as nat) == digits(rest as nat) + trailing(low@),
            forall|i: int| 0 <= i < low.len() ==> low[i] < 10,
        decreases rest,
    {
        let last: u8 = (rest % 10) as u8;
        proof {
            let longer = low@.push(last);
            assert(trailing(longer) =~= seq![digit(last as int)] + trailing(low@));
            assert(digits(rest as nat) == digits((rest / 10) as nat).push(digit(last as int)));
            assert(digits((rest / 10) as nat).push(digit(last as int)) + trailing(low@)
                =~= digits((rest / 10) as nat) + trailing(longer));
        }
        low.push(last);
        rest = rest / 10;
    }
    let ghost sign = out@;
    out.append(digit_text(rest as u8));
    assert(digits(rest as nat) == seq![digit(rest as int)]);
    let mut left: usize = low.len();
    while left > 0
        invariant
            left <= low.len(),
            forall|i: int| 0 <= i < low.len() ==> low[i] < 10,
            out@ == sign + digits(rest as nat) + trailing(low@).subrange(0, low.len() - left),
        decreases left,
    {
        left -= 1;
        out.append(digit_text(low[left]));
        assert(trailing(low@).subrange(0, low.len() - left - 1).push(digit(low[left as int] as int))
            =~= trailing(low@).subrange(0, low.len() - left));
        assert(out@ =~= sign + digits(rest as nat) + trailing(low@).subrange(
            0,
            low.len() - left,
        ));
    }
    assert(trailing(low@).subrange(0, low.len() as int) == trailing(low@));
    assert(out@ =~= sign + digits(size as nat));
    out
}

/// The cursor that follows a page whose last record bears the given
/// timestamp: the timestamp in milliseconds, and the end marker where there
/// is no record or its timestamp cannot be read.
pub open spec fn cursor_after(last: Option<Seq<char>>) -> Seq<char> {
    match last {
        None => complete(),
        Some(timestamp) => match rfc3339_millis(timestamp) {
            None => complete(),
            Some(millis) => decimal(millis as int),
        },
    }
}

/// What a cursor is made of, given what the timestamp of the last record
/// was read as.
pub fn cursor_of(millis: Option<i64>) -> (r: String)
    ensures
        r@ == (match millis {
            Some(m) => decimal(m as int),
            None => complete(),
        }),
{
    match millis {
        Some(m) => decimal_text(m),
        None => String::from_str("complete"),
    }
}

/// The timestamp of a record in milliseconds, as text, where it can be read.
pub fn extract_unix(timestamp: &String) -> (r: Option<String>)
    ensures
        match r {
            Some(text) => rfc3339_millis(timestamp@).is_some() && text@ == decimal(
                rfc3339_millis(timestamp@).unwrap() as int,
            ),
            None => rfc3339_millis(timestamp@).is_none(),
        },
{
    match parse_millis(timestamp.as_str()) {
        Some(millis) => Some(decimal_text(millis)),
        None => None,
    }
}

/// The timestamp of the last order of a page.
pub open spec fn last_order_stamp(orders: Seq<Order>) -> Option<Seq<char>> {
    if orders.len() == 0 {
        None
    } else {
        Some(orders.last().date_modified@)
    }
}

/// The timestamp of the last dividend of a page.
pub open spec fn last_dividend_stamp(dividends: Seq<Dividend>) -> Option<Seq<char>> {
    if dividends.len() == 0 {
        None
    } else {
        Some(dividends.last().paid_on@)
    }
}

/// Takes a page of orders apart: the cursor of the next page and the orders.
pub fn process_items(orders: Items) -> (r: (String, Vec<Order>))
    ensures
        r.0@ == cursor_after(last_order_stamp(orders.items@)),
        r.1@ == orders.items@,
{
    let n: usize = orders.items.len();
    let millis = if n == 0 {
        None
    } else {
        parse_millis(orders.items[n - 1].date_modified.as_str())
    };
    (cursor_of(millis), orders.items)
}

/// Takes a page of dividends apart: the cursor of the next page and the
/// dividends. A page that names no next page is the last.
pub fn process_dividend_items(dividends: Dividends) -> (r: (String, Vec<Dividend>))
    ensures
        r.0@ == (if dividends.next_page_path.is_none() {
            complete()
        } else {
            cursor_after(last_dividend_stamp(dividends.items@))
        }),
        r.1@ == dividends.items@,
{
    let n: usize = dividends.items.len();
    let millis = if n == 0 || dividends.next_page_path.is_none() {
        None
    } else {
        parse_millis(dividends.items[n - 1].paid_on.as_str())
    };
    (cursor_of(millis), dividends.items)
}

/// Whether a cursor marks the end of the history.
pub fn is_complete(cursor: &String) -> (r: bool)
    ensures
        r == (cursor@ == complete()),
{
    let end = String::from_str("complete");
    *cursor == end
}

/// How the paging through a history goes on after a call for a page.
#[derive(Clone, Debug, PartialEq, Eq)]
pub enum PageStep {
    /// There are more pages: ask for the next with this cursor.
    Next(String),
    /// The page was the last: the history is complete.
    Complete,
    /// The call gave no page of the kind asked for: the history so far is
    /// not the whole history.
    Failed,
}

/// The step that follows a page whose cursor is the given one.
pub open spec fn follows(step: PageStep, cursor: Seq<char>) -> bool {
    match step {
        PageStep::Next(next) => cursor != complete() && next@ == cursor,
        PageStep::Complete => cursor == complete(),
        PageStep::Failed => false,
    }
}

/// The step that follows a page with the given cursor.
fn step_to(cursor: String) -> (step: PageStep)
    ensures
        follows(step, cursor@),
{
    if is_complete(&cursor) {
        PageStep::Complete
    } else {
        PageStep::Next(cursor)
    }
}

/// Takes in what a call for a page of orders gave. A page of orders is
/// appended to the orders had so far; its cursor is the next to ask for,
/// unless it marks the end, where the history is complete. Anything else,
/// no answer or a page of another kind, changes nothing and fails the
/// paging: what was gathered so far is then not the whole history.
pub fn after_orders_page(data: &mut Vec<Order>, response: Option<CallResponse>) -> (step: PageStep)
    ensures
        match response {
            Some(CallResponse::Orders(page)) => {
                &&& final(data)@ == old(data)@ + page.items@
                &&& follows(step, cursor_after(last_order_stamp(page.items@)))
            },
            _ => final(data)@ == old(data)@ && step == PageStep::Failed,
        },
{
    match response {
        Some(CallResponse::Orders(page)) => {
            let (cursor, mut orders) = process_items(page);
            data.append(&mut orders);
            step_to(cursor)
        },
        _ => PageStep::Failed,
    }
}

/// Takes in what a call for a page of dividends gave, as `after_orders_page`
/// does for orders. A page that names no next page is the last.
pub fn after_dividends_page(data: &mut Vec<Dividend>, response: Option<CallResponse>) -> (step:
    PageStep)
    ensures
        match response {
            Some(CallResponse::Divis(page)) => {
                &&& final(data)@ == old(data)@ + page.items@
                &&& follows(
                    step,
                    if page.next_page_path.is_none() {
                        complete()
                    } else {
                        cursor_after(last_dividend_stamp(page.items@))
                    },
                )
            },
            _ => final(data)@ == old(data)@ && step == PageStep::Failed,
        },
{
    match response {
        Some(CallResponse::Divis(page)) => {
            let (cursor, mut dividends) = process_dividend_items(page);
            data.append(&mut dividends);
            step_to(cursor)
        },
        _ => PageStep::Failed,
    }
}

/// What to do with the answer to a call.
#[derive(Clone, Copy, Debug, PartialEq, Eq, Structural)]
pub enum ApiStep {
    /// The call succeeded: decode the body as a page of the given kind.
    Decode(ResponseType),
    /// The call was refused for its rate: wait this many seconds and call again.
    Wait(u64),
    /// The call failed with this status.
    Fail(u16),
}

/// The step that follows an answer with the given status, after the call
/// has been made again `retries` times already.
pub open spec fn step_after(status: u16, response_type: ResponseType, retries: u32) -> ApiStep {
    if 200 <= status <= 299 {
        ApiStep::Decode(response_type)
    } else if status == 429 && retries < MAX_RETRIES {
        ApiStep::Wait(RETRY_SECONDS)
    } else {
        ApiStep::Fail(status)
    }
}

/// Decides what follows the answer to a call: a success is decoded, a
/// refusal for the rate is waited out and the call made again, up to a
/// ceiling, and anything else fails.
pub fn after_status(status: u16, response_type: ResponseType, retries: u32) -> (r: ApiStep)
    ensures
        r == step_after(status, response_type, retries),
{
    if 200 <= status && status <= 299 {
        ApiStep::Decode(response_type)
    } else if status == 429 && retries < MAX_RETRIES {
        ApiStep::Wait(RETRY_SECONDS)
    } else {
        ApiStep::Fail(status)
    }
}

/// Two orders agree in all but the timestamp.
pub open spec fn same_but_date(a: Order, b: Order) -> bool {
    &&& a.id == b.id
    &&& a.ticker == b.ticker
    &&& a.filled_quantity == b.filled_quantity
    &&& a.fill_price == b.fill_price
    &&& a.filled_value == b.filled_value
    &&& a.taxes == b.taxes
    &&& a.status == b.status
}

/// Cuts the timestamp of every order down to its day: its first ten
/// characters.
pub fn truncate_dates(data: &mut Vec<Order>)
    ensures
        final(data).len() == old(data).len(),
        forall|i: int|
            0 <= i < old(data).len() ==> (#[trigger] final(data)[i]).date_modified@ == leading(
                old(data)[i].date_modified@,
                10,
            ) && same_but_date(final(data)[i], old(data)[i]),
{
    let mut i: usize = 0;
    while i < data.len()
        invariant
            i <= data.len(),
            data.len() == old(data).len(),
            forall|k: int|
                0 <= k < i ==> (#[trigger] data[k]).date_modified@ == leading(
                    old(data)[k].date_modified@,
                    10,
                ) && same_but_date(data[k], old(data)[k]),
            forall|k: int| i <= k < data.len() ==> data[k] == old(data)[k],
        decreases data.len() - i,
    {
        let day = prefix(data[i].date_modified.as_str(), 10);
        data[i].date_modified = day;
        i += 1;
    }
}

/// Cuts the date of every dividend down to its day and sums the amounts.
/// There is no sum where a partial sum does not fit in 128 bits; the dates
/// are cut all the same.
pub fn settle_dividends(data: &mut Vec<Dividend>) -> (r: Option<i128>)
    ensures
        final(data).len() == old(data).len(),
        forall|i: int|
            0 <= i < old(data).len() ==> (#[trigger] final(data)[i]).paid_on@ == leading(
                old(data)[i].paid_on@,
                10,
            ) && final(data)[i].ticker == old(data)[i].ticker && final(data)[i].amount == old(
                data,
            )[i].amount,
        r.is_some() <==> forall|k: int|
            0 <= k <= old(data).len() ==> fits_i128(#[trigger] dividends_to(old(data)@, k)),
        r.is_some() ==> r.unwrap() == dividends_to(old(data)@, old(data).len() as int),
{
    let mut total: Option<i128> = Some(0);
    let mut i: usize = 0;
    while i < data.len()
        invariant
            i <= data.len(),
            data.len() == old(data).len(),
            forall|k: int|
                0 <= k < i ==> (#[trigger] data[k]).paid_on@ == leading(old(data)[k].paid_on@, 10)
                    && data[k].ticker == old(data)[k].ticker && data[k].amount == old(
                    data,
                )[k].amount,
            forall|k: int| i <= k < data.len() ==> data[k] == old(data)[k],
            total.is_some() <==> forall|k: int|
                0 <= k <= i ==> fits_i128(#[trigger] dividends_to(old(data)@, k)),
            total.is_some() ==> total.unwrap() == dividends_to(old(data)@, i as int),
        decreases data.len() - i,
    {
        let day = prefix(data[i].paid_on.as_str(), 10);
        let amount: i128 = data[i].amount;
        data[i].paid_on = day;
        total = match total {
            None => None,
            Some(sum) => {
                let next = checked_sum(sum, amount);
                assert(next.is_none() ==> !fits_i128(dividends_to(old(data)@, i + 1)));
                next
            },
        };
        i += 1;
    }
    total
}

/// The sum of the first `count` dividend amounts.
pub open spec fn dividends_to(dividends: Seq<Dividend>, count: int) -> int
    decreases count,
{
    if count <= 0 {
        0
    } else {
        dividends_to(dividends, count - 1) + dividends[count - 1].amount
    }
}

/// Whether an order was filled: only such orders reach the ledger.
pub fn is_filled(order: &Order) -> (r: bool)
    ensures
        r == (order.status@ == "FILLED"@),
{
    let filled = String::from_str("FILLED");
    order.status == filled
}

/// The day on which an order was executed, where its timestamp names one.
pub fn execution_day(order: &Order) -> (r: Option<Day>)
    ensures
        r == parsed_day(order.date_modified@),
{
    parse_day(order.date_modified.as_str())
}

/// The price of one whole unit of an order's ticker in the unit of its
/// value: a ticker of the London exchange is quoted in hundredths.
pub open spec fn unit_price(order: Order) -> int {
    if occurs(order.ticker@, "l_EQ"@) {
        order.fill_price * 100
    } else {
        order.fill_price as int
    }
}

/// The quantity that an order filled. An order placed by value reports a
/// quantity of zero: what it filled is its value over the unit price,
/// rounded toward zero. There is none where that price is zero or the
/// quotient does not fit in 64 bits.
pub open spec fn quantity_of(order: Order) -> Option<i64> {
    if order.filled_quantity != 0 {
        Some(order.filled_quantity)
    } else if unit_price(order) == 0 || !fits_i64(
        trunc_div(order.filled_value as int, unit_price(order)),
    ) {
        None
    } else {
        Some(trunc_div(order.filled_value as int, unit_price(order)) as i64)
    }
}

/// The quantity that an order filled, derived from its value where the
/// order was placed by value.
pub fn derive_quantity(order: &Order) -> (r: Option<i64>)
    ensures
        r == quantity_of(*order),
{
    if order.filled_quantity != 0 {
        return Some(order.filled_quantity);
    }
    let price: i128 = if text_contains(order.ticker.as_str(), "l_EQ") {
        order.fill_price as i128 * 100
    } else {
        order.fill_price as i128
    };
    match checked_quotient(order.filled_value, price) {
        None => None,
        Some(q) => if q < i64::MIN as i128 || q > i64::MAX as i128 {
            None
        } else {
            Some(q as i64)
        },
    }
}

/// Turns a list around: a history that came newest first comes out in the
/// order in which things happened.
pub fn oldest_first<T>(list: &mut Vec<T>)
    ensures
        final(list)@ == old(list)@.reverse(),
{
    let ghost given = list@;
    assert(given.len() == list.len());
    let mut out: Vec<T> = Vec::new();
    while list.len() > 0
        invariant
            given.len() <= usize::MAX,
            list.len() + out.len() == given.len(),
            forall|k: int| 0 <= k < list.len() ==> list[k] == given[k],
            forall|k: int| 0 <= k < out.len() ==> out[k] == given[given.len() - 1 - k],
        decreases list.len(),
    {
        match list.pop() {
            Some(item) => {
                out.push(item);
            },
            None => {},
        }
    }
    assert(out@ =~= given.reverse());
    *list = out;
}

/// Whether an order of the same id stands before a place.
pub open spec fn seen_before(orders: Seq<Order>, place: int) -> bool {
    exists|j: int| 0 <= j < place && (#[trigger] orders[j]).id == orders[place].id
}

/// The first `count` orders without those whose id was seen before.
pub open spec fn first_of_each(orders: Seq<Order>, count: int) -> Seq<Order>
    decreases count,
{
    if count <= 0 {
        Seq::empty()
    } else if seen_before(orders, count - 1) {
        first_of_each(orders, count - 1)
    } else {
        first_of_each(orders, count - 1).push(orders[count - 1])
    }
}

/// Removes every order whose id an earlier order bears, keeping the first
/// of each id in place.
pub fn remove_duplicates(orders: &mut Vec<Order>)
    ensures
        final(orders)@ == first_of_each(old(orders)@, old(orders).len() as int),
{
    let ghost given = orders@;
    assert(given.len() == orders.len());
    let mut rest: Vec<Order> = Vec::new();
    while orders.len() > 0
        invariant
            given.len() <= usize::MAX,
            orders.len() + rest.len() == given.len(),
            forall|k: int| 0 <= k < orders.len() ==> orders[k] == given[k],
            forall|k: int| 0 <= k < rest.len() ==> rest[k] == given[given.len() - 1 - k],
        decreases orders.len(),
    {
        match orders.pop() {
            Some(order) => {
                rest.push(order);
            },
            None => {},
        }
    }
    let mut seen: HashSet<u64> = HashSet::new();
    let mut done: usize = 0;
    while rest.len() > 0
        invariant
            given.len() <= usize::MAX,
            done + rest.len() == given.len(),
            forall|k: int| 0 <= k < rest.len() ==> rest[k] == given[given.len() - 1 - k],
            orders@ == first_of_each(given, done as int),
            forall|id: u64|
                seen@.contains(id) <==> exists|j: int| 0 <= j < done && (#[trigger] given[j]).id == id,
        decreases rest.len(),
    {
        match rest.pop() {
            Some(order) => {
                assert(order == given[done as int]);
                let fresh = seen.insert(order.id);
                assert(fresh == !seen_before(given, done as int));
                if fresh {
                    orders.push(order);
                }
                assert forall|id: u64| seen@.contains(id) <==> exists|j: int|
                    0 <= j < done + 1 && (#[trigger] given[j]).id == id by {
                    if seen@.contains(id) {
                        if id == order.id {
                            assert(given[done as int].id == id);
                        } else {
                            let j = choose|j: int| 0 <= j < done && (#[trigger] given[j]).id == id;
                            assert(given[j].id == id);
                        }
                    }
                }
                done += 1;
            },
            None => {},
        }
    }
}

} // verus!
