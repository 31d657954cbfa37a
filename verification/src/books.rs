//! The books of a portfolio: the ledger, the snapshot of every day on which
//! an order was executed, the cash flows and the realized amounts, as they
//! follow from the orders in the order of their execution.

use crate::amount::{checked_sum, fits_i128, product, Day};
use crate::broker::{execution_day, is_filled, Dividend, Order};
use crate::calendar::{parse_day, parsed_day};
use crate::ledger::{
    cash_flow_of, lifetimes_after, position_of, positions_after, realized_event, realized_of,
    representable, transition_of, Applied, Fill, Holding, Lifetime, PositionLedger,
};
use crate::unrealized::snapshots;
use crate::series::{
    amount_at, amount_on, increasing, lemma_keyed_order, lemma_with_entry_increasing, pair_at,
    pair_on, pair_posted, post, post_pair, posted, put, with_entry,
};
use vstd::prelude::*;

verus! {

/// Why an order could not be booked.
#[derive(Clone, Copy, Debug, PartialEq, Eq, Structural)]
pub enum BookError {
    /// The timestamp of the order names no day.
    InvalidDate,
    /// The day of the order is not in the calendar.
    DateOutsideRange,
    /// A position or a sum that the order leads to does not fit.
    Overflow,
}

/// The fill that an order executed on a day brings to the ledger.
pub open spec fn fill_of(order: Order, day: Day) -> Fill {
    Fill {
        ticker: order.ticker,
        date: day,
        quantity: order.filled_quantity,
        price: order.fill_price,
    }
}

/// What an order executed on a day leads to can be held: the position, the
/// day's cash flow and the day's realized amounts.
pub open spec fn order_fits(
    positions: Seq<Holding>,
    real_returns: Seq<(Day, (i128, i128))>,
    cash_flows: Seq<(Day, i128)>,
    order: Order,
    day: Day,
) -> bool {
    let existing = position_of(positions, order.ticker@);
    &&& representable(existing, order.filled_quantity as int, order.fill_price as int)
    &&& fits_i128(
        amount_on(cash_flows, day) + cash_flow_of(
            order.filled_quantity as int,
            order.fill_price as int,
        ),
    )
    &&& match realized_of(existing, fill_of(order, day)) {
        None => true,
        Some(event) => fits_i128(pair_on(real_returns, day).0 + event.cost_basis_removed)
            && fits_i128(pair_on(real_returns, day).1 + event.market_value_removed),
    }
}

/// The realized amounts after an event, if there is one, has been added to
/// its day.
pub open spec fn realized_after(
    real_returns: Seq<(Day, (i128, i128))>,
    applied: Applied,
) -> Seq<(Day, (i128, i128))> {
    match applied.realized {
        None => real_returns,
        Some(event) => pair_posted(
            real_returns,
            event.date,
            event.cost_basis_removed,
            event.market_value_removed,
        ),
    }
}

/// Books one filled order: the ledger takes the fill, the cash that the
/// fill moves is added to the cash flow of its day, and what an exit
/// realizes is added to the realized amounts of its day. Where the order's
/// timestamp names no day, or something does not fit, nothing changes.
pub fn process_order(
    order: &Order,
    ledger: &mut PositionLedger,
    real_returns: &mut Vec<(Day, (i128, i128))>,
    cash_flows: &mut Vec<(Day, i128)>,
    last_date: Day,
) -> (r: Result<Applied, BookError>)
    requires
        old(ledger).wf(),
    ensures
        final(ledger).wf(),
        increasing(old(cash_flows)@) ==> increasing(final(cash_flows)@),
        increasing(old(real_returns)@) ==> increasing(final(real_returns)@),
        match r {
            Ok(applied) => {
                let day = parsed_day(order.date_modified@).unwrap();
                let fill = fill_of(*order, day);
                let existing = position_of(old(ledger).positions(), order.ticker@);
                &&& parsed_day(order.date_modified@).is_some()
                &&& order_fits(
                    old(ledger).positions(),
                    old(real_returns)@,
                    old(cash_flows)@,
                    *order,
                    day,
                )
                &&& applied.transition == transition_of(existing, order.filled_quantity as int)
                &&& applied.realized == realized_of(existing, fill)
                &&& applied.cash_flow == cash_flow_of(
                    order.filled_quantity as int,
                    order.fill_price as int,
                )
                &&& final(ledger).positions() == positions_after(old(ledger).positions(), fill)
                &&& final(ledger).lifetimes() == lifetimes_after(
                    old(ledger).lifetimes(),
                    applied.transition,
                    fill,
                    last_date,
                )
                &&& final(cash_flows)@ == posted(old(cash_flows)@, day, applied.cash_flow)
                &&& final(real_returns)@ == realized_after(old(real_returns)@, applied)
            },
            Err(e) => {
                &&& final(ledger).positions() == old(ledger).positions()
                &&& final(ledger).lifetimes() == old(ledger).lifetimes()
                &&& final(cash_flows)@ == old(cash_flows)@
                &&& final(real_returns)@ == old(real_returns)@
                &&& match parsed_day(order.date_modified@) {
                    None => e == BookError::InvalidDate,
                    Some(day) => e == BookError::Overflow && !order_fits(
                        old(ledger).positions(),
                        old(real_returns)@,
                        old(cash_flows)@,
                        *order,
                        day,
                    ),
                }
            },
        },
{
    let day = match execution_day(order) {
        None => {
            return Err(BookError::InvalidDate);
        },
        Some(d) => d,
    };
    let fill = Fill {
        ticker: order.ticker.clone(),
        date: day,
        quantity: order.filled_quantity,
        price: order.fill_price,
    };
    assert(fill == fill_of(*order, day));
    let existing = ledger.position(&order.ticker);
    let event = realized_event(existing, &fill);
    let flow: i128 = -product(order.filled_quantity, order.fill_price);
    if checked_sum(amount_at(cash_flows, day), flow).is_none() {
        return Err(BookError::Overflow);
    }
    match event {
        None => {},
        Some(e) => {
            let held = pair_at(real_returns, day);
            if checked_sum(held.0, e.cost_basis_removed).is_none() || checked_sum(
                held.1,
                e.market_value_removed,
            ).is_none() {
                return Err(BookError::Overflow);
            }
        },
    }
    match ledger.apply(&fill, last_date) {
        Err(_) => Err(BookError::Overflow),
        Ok(applied) => {
            proof {
                if increasing(cash_flows@) {
                    lemma_with_entry_increasing(
                        cash_flows@,
                        day,
                        (amount_on(cash_flows@, day) + flow) as i128,
                    );
                }
                if increasing(real_returns@) && applied.realized.is_some() {
                    let e = applied.realized.unwrap();
                    lemma_with_entry_increasing(
                        real_returns@,
                        day,
                        (
                            (pair_on(real_returns@, day).0 + e.cost_basis_removed) as i128,
                            (pair_on(real_returns@, day).1 + e.market_value_removed) as i128,
                        ),
                    );
                }
            }
            let cash_kept = post(cash_flows, day, flow);
            match applied.realized {
                None => {},
                Some(e) => {
                    let realized_kept = post_pair(
                        real_returns,
                        day,
                        e.cost_basis_removed,
                        e.market_value_removed,
                    );
                    assert(realized_kept);
                },
            }
            assert(cash_kept);
            Ok(applied)
        },
    }
}

/// The books as values.
pub struct BooksView {
    pub positions: Seq<Holding>,
    pub lifetimes: Seq<Lifetime>,
    pub history: Seq<(Day, Seq<Holding>)>,
    pub cash_flows: Seq<(Day, i128)>,
    pub real_returns: Seq<(Day, (i128, i128))>,
}

/// The ledger with everything that is derived from the orders beside it.
pub struct Books {
    pub ledger: PositionLedger,
    pub portfolio_history: Vec<(Day, Vec<Holding>)>,
    pub cash_flows: Vec<(Day, i128)>,
    pub real_returns: Vec<(Day, (i128, i128))>,
}

/// The first place from `from` on at which the calendar has the day.
pub open spec fn slot_from(history: Seq<(Day, Seq<Holding>)>, day: Day, from: int) -> Option<int>
    decreases history.len() - from,
{
    if from < 0 || from >= history.len() {
        None
    } else if history[from].0 == day {
        Some(from)
    } else {
        slot_from(history, day, from + 1)
    }
}

/// The books before any order: nothing held, and a calendar of days on
/// which nothing is held.
pub open spec fn opened(time_range: Seq<Day>) -> BooksView {
    BooksView {
        positions: Seq::empty(),
        lifetimes: Seq::empty(),
        history: Seq::new(time_range.len(), |i: int| (time_range[i], Seq::<Holding>::empty())),
        cash_flows: Seq::empty(),
        real_returns: Seq::empty(),
    }
}

/// The books after one order. An order that was filled is booked as
/// `process_order` does; any order, filled or not, then has the holdings
/// written into the calendar at its day. An order is refused where its
/// timestamp names no day, where its day is not in the calendar, and where
/// what it leads to does not fit.
pub open spec fn booked(view: BooksView, order: Order, last_date: Day) -> Result<
    BooksView,
    BookError,
> {
    match parsed_day(order.date_modified@) {
        None => Err(BookError::InvalidDate),
        Some(day) => match slot_from(view.history, day, 0) {
            None => Err(BookError::DateOutsideRange),
            Some(slot) => if order.status@ != "FILLED"@ {
                Ok(
                    BooksView {
                        positions: view.positions,
                        lifetimes: view.lifetimes,
                        history: view.history.update(slot, (day, view.positions)),
                        cash_flows: view.cash_flows,
                        real_returns: view.real_returns,
                    },
                )
            } else if !order_fits(view.positions, view.real_returns, view.cash_flows, order, day) {
                Err(BookError::Overflow)
            } else {
                let fill = fill_of(order, day);
                let existing = position_of(view.positions, order.ticker@);
                let applied = Applied {
                    transition: transition_of(existing, order.filled_quantity as int),
                    realized: realized_of(existing, fill),
                    cash_flow: cash_flow_of(
                        order.filled_quantity as int,
                        order.fill_price as int,
                    ) as i128,
                };
                Ok(
                    BooksView {
                        positions: positions_after(view.positions, fill),
                        lifetimes: lifetimes_after(
                            view.lifetimes,
                            applied.transition,
                            fill,
                            last_date,
                        ),
                        history: view.history.update(
                            slot,
                            (day, positions_after(view.positions, fill)),
                        ),
                        cash_flows: posted(view.cash_flows, day, applied.cash_flow),
                        real_returns: realized_after(view.real_returns, applied),
                    },
                )
            },
        },
    }
}

/// The books after the first `count` orders, and the error of the first
/// order that is refused.
pub open spec fn booked_all(
    view: BooksView,
    orders: Seq<Order>,
    last_date: Day,
    count: int,
) -> Result<BooksView, BookError>
    decreases count,
{
    if count <= 0 {
        Ok(view)
    } else {
        match booked_all(view, orders, last_date, count - 1) {
            Err(e) => Err(e),
            Ok(before) => booked(before, orders[count - 1], last_date),
        }
    }
}

/// The last day of a calendar, and the first day of all where it is empty.
pub open spec fn last_day(time_range: Seq<Day>) -> Day {
    if time_range.len() == 0 {
        0
    } else {
        time_range.last()
    }
}

/// The first place at which the calendar has the day.
fn find_slot(history: &Vec<(Day, Vec<Holding>)>, day: Day) -> (r: Option<usize>)
    ensures
        match r {
            Some(i) => i < history.len() && slot_from(snapshots(history@), day, 0) == Some(
                i as int,
            ),
            None => slot_from(snapshots(history@), day, 0).is_none(),
        },
{
    let mut i: usize = 0;
    while i < history.len()
        invariant
            i <= history.len(),
            slot_from(snapshots(history@), day, 0) == slot_from(
                snapshots(history@),
                day,
                i as int,
            ),
        decreases history.len() - i,
    {
        if history[i].0 == day {
            return Some(i);
        }
        i += 1;
    }
    None
}

impl Books {
    /// The books as values.
    pub open spec fn view(&self) -> BooksView {
        BooksView {
            positions: self.ledger.positions(),
            lifetimes: self.ledger.lifetimes(),
            history: snapshots(self.portfolio_history@),
            cash_flows: self.cash_flows@,
            real_returns: self.real_returns@,
        }
    }

    /// The ledger is well formed, and the cash flows and the realized
    /// amounts are in the order of their dates, one entry to a day.
    pub open spec fn wf(&self) -> bool {
        &&& self.ledger.wf()
        &&& increasing(self.cash_flows@)
        &&& increasing(self.real_returns@)
    }

    /// Opens the books over a calendar.
    pub fn open(time_range: &Vec<Day>) -> (r: Books)
        ensures
            r.wf(),
            r@ == opened(time_range@),
    {
        let mut portfolio_history: Vec<(Day, Vec<Holding>)> = Vec::new();
        let mut i: usize = 0;
        while i < time_range.len()
            invariant
                i <= time_range.len(),
                portfolio_history.len() == i,
                forall|k: int|
                    0 <= k < i ==> (#[trigger] portfolio_history[k]).0 == time_range[k]
                        && portfolio_history[k].1@ == Seq::<Holding>::empty(),
            decreases time_range.len() - i,
        {
            portfolio_history.push((time_range[i], Vec::new()));
            i += 1;
        }
        let books = Books {
            ledger: PositionLedger::new(),
            portfolio_history,
            cash_flows: Vec::new(),
            real_returns: Vec::new(),
        };
        assert(books@.history =~= opened(time_range@).history);
        books
    }

    /// Takes one order into the books. Where the order is refused the books
    /// stay as they were.
    pub fn record(&mut self, order: &Order, last_date: Day) -> (r: Result<(), BookError>)
        requires
            old(self).wf(),
        ensures
            final(self).wf(),
            match r {
                Ok(_) => booked(old(self)@, *order, last_date) == Ok::<BooksView, BookError>(
                    final(self)@,
                ),
                Err(e) => booked(old(self)@, *order, last_date) == Err::<BooksView, BookError>(e)
                    && final(self)@ == old(self)@,
            },
    {
        let day = match execution_day(order) {
            None => {
                return Err(BookError::InvalidDate);
            },
            Some(d) => d,
        };
        let slot = match find_slot(&self.portfolio_history, day) {
            None => {
                return Err(BookError::DateOutsideRange);
            },
            Some(s) => s,
        };
        let ghost before = self@;
        if is_filled(order) {
            match process_order(
                order,
                &mut self.ledger,
                &mut self.real_returns,
                &mut self.cash_flows,
                last_date,
            ) {
                Err(e) => {
                    assert(self@.history == before.history);
                    return Err(e);
                },
                Ok(_) => {},
            }
        }
        let held = self.ledger.snapshot();
        self.portfolio_history.set(slot, (day, held));
        assert(self@.history =~= before.history.update(slot as int, (day, self@.positions)));
        Ok(())
    }
}

/// Takes the orders, in the order of their execution, into fresh books over
/// a calendar. The first order that is refused ends the booking with its
/// error.
pub fn book_orders(orders: &Vec<Order>, time_range: &Vec<Day>) -> (r: Result<Books, BookError>)
    ensures
        match r {
            Ok(books) => books.wf() && booked_all(
                opened(time_range@),
                orders@,
                last_day(time_range@),
                orders.len() as int,
            ) == Ok::<BooksView, BookError>(books@),
            Err(e) => booked_all(
                opened(time_range@),
                orders@,
                last_day(time_range@),
                orders.len() as int,
            ) == Err::<BooksView, BookError>(e),
        },
{
    let last_date: Day = if time_range.len() == 0 {
        0
    } else {
        time_range[time_range.len() - 1]
    };
    let mut books = Books::open(time_range);
    let mut i: usize = 0;
    while i < orders.len()
        invariant
            i <= orders.len(),
            books.wf(),
            last_date == last_day(time_range@),
            booked_all(opened(time_range@), orders@, last_date, i as int) == Ok::<
                BooksView,
                BookError,
            >(books@),
        decreases orders.len() - i,
    {
        match books.record(&orders[i], last_date) {
            Err(e) => {
                assert(booked_all(opened(time_range@), orders@, last_date, i + 1) == Err::<
                    BooksView,
                    BookError,
                >(e));
                assert forall|count: int| i + 1 <= count implies booked_all(
                    opened(time_range@),
                    orders@,
                    last_date,
                    count,
                ) == Err::<BooksView, BookError>(e) by {
                    lemma_error_stays(opened(time_range@), orders@, last_date, i + 1, count, e);
                }
                return Err(e);
            },
            Ok(_) => {},
        }
        i += 1;
    }
    Ok(books)
}

/// Once an order has been refused, the error stays, however many orders
/// follow.
proof fn lemma_error_stays(
    view: BooksView,
    orders: Seq<Order>,
    last_date: Day,
    failed: int,
    count: int,
    e: BookError,
)
    requires
        failed <= count,
        booked_all(view, orders, last_date, failed) == Err::<BooksView, BookError>(e),
    ensures
        booked_all(view, orders, last_date, count) == Err::<BooksView, BookError>(e),
    decreases count - failed,
{
    if failed < count {
        lemma_error_stays(view, orders, last_date, failed, count - 1, e);
    }
}

/// The dividends as they stand in the books: the cash flows with the
/// dividends in them, the total received, and the total as of each day on
/// which a dividend was paid.
pub struct DividendView {
    pub cash_flows: Seq<(Day, i128)>,
    pub cumulative: Seq<(Day, i128)>,
    pub total: int,
}

/// The books after one dividend. A dividend whose date names no day is
/// passed over. Any other is added to the cash flow of its day and to the
/// total, and the total is set as that of its day. There are no books where
/// a sum does not fit in 128 bits.
pub open spec fn dividend_booked(view: DividendView, dividend: Dividend) -> Option<DividendView> {
    match parsed_day(dividend.paid_on@) {
        None => Some(view),
        Some(day) => if !fits_i128(view.total + dividend.amount) || !fits_i128(
            amount_on(view.cash_flows, day) + dividend.amount,
        ) {
            None
        } else {
            Some(
                DividendView {
                    cash_flows: posted(view.cash_flows, day, dividend.amount),
                    cumulative: with_entry(
                        view.cumulative,
                        day,
                        (view.total + dividend.amount) as i128,
                    ),
                    total: view.total + dividend.amount,
                },
            )
        },
    }
}

/// The books after the first `count` dividends.
pub open spec fn dividends_booked(
    cash_flows: Seq<(Day, i128)>,
    dividends: Seq<Dividend>,
    count: int,
) -> Option<DividendView>
    decreases count,
{
    if count <= 0 {
        Some(DividendView { cash_flows, cumulative: Seq::empty(), total: 0 })
    } else {
        match dividends_booked(cash_flows, dividends, count - 1) {
            None => None,
            Some(before) => dividend_booked(before, dividends[count - 1]),
        }
    }
}

/// A copy of a series of amounts.
fn copy_amounts(series: &Vec<(Day, i128)>) -> (r: Vec<(Day, i128)>)
    ensures
        r@ == series@,
{
    let mut out: Vec<(Day, i128)> = Vec::new();
    let mut i: usize = 0;
    while i < series.len()
        invariant
            i <= series.len(),
            out@ == series@.subrange(0, i as int),
        decreases series.len() - i,
    {
        out.push(series[i]);
        assert(series@.subrange(0, i as int).push(series[i as int]) == series@.subrange(
            0,
            i + 1,
        ));
        i += 1;
    }
    assert(series@.subrange(0, series.len() as int) == series@);
    out
}

/// Takes the dividends, in the order of their payment, into the cash flows,
/// and gives the total received and the total as of each day of payment.
/// Where a sum does not fit in 128 bits the cash flows stay as they were.
pub fn book_dividends(dividends: &Vec<Dividend>, cash_flows: &mut Vec<(Day, i128)>) -> (r: Result<
    (i128, Vec<(Day, i128)>),
    BookError,
>)
    ensures
        increasing(old(cash_flows)@) ==> increasing(final(cash_flows)@),
        r.is_ok() ==> increasing(r.unwrap().1@),
        match dividends_booked(old(cash_flows)@, dividends@, dividends.len() as int) {
            None => r == Err::<(i128, Vec<(Day, i128)>), BookError>(BookError::Overflow)
                && final(cash_flows)@ == old(cash_flows)@,
            Some(view) => r.is_ok() && r.unwrap().0 == view.total && r.unwrap().1@
                == view.cumulative && final(cash_flows)@ == view.cash_flows,
        },
{
    let mut flows = copy_amounts(cash_flows);
    let mut cumulative: Vec<(Day, i128)> = Vec::new();
    let mut total: i128 = 0;
    let mut i: usize = 0;
    while i < dividends.len()
        invariant
            i <= dividends.len(),
            cash_flows@ == old(cash_flows)@,
            increasing(old(cash_flows)@) ==> increasing(flows@),
            increasing(cumulative@),
            dividends_booked(old(cash_flows)@, dividends@, i as int) == Some(
                DividendView { cash_flows: flows@, cumulative: cumulative@, total: total as int },
            ),
        decreases dividends.len() - i,
    {
        match parse_day(dividends[i].paid_on.as_str()) {
            None => {},
            Some(day) => {
                let amount: i128 = dividends[i].amount;
                let ghost flows_before = flows@;
                let ghost cumulative_before = cumulative@;
                let booked = match checked_sum(total, amount) {
                    None => None,
                    Some(next) => if post(&mut flows, day, amount) {
                        Some(next)
                    } else {
                        None
                    },
                };
                match booked {
                    Some(next) => {
                        total = next;
                        put(&mut cumulative, day, total);
                        assert(increasing(cumulative@)) by {
                            lemma_with_entry_increasing(cumulative_before, day, total);
                        }
                        assert(increasing(flows_before) ==> increasing(flows@)) by {
                            if increasing(flows_before) {
                                lemma_with_entry_increasing(
                                    flows_before,
                                    day,
                                    (amount_on(flows_before, day) + amount) as i128,
                                );
                            }
                        }
                    },
                    None => {
                        proof {
                            assert(dividends_booked(old(cash_flows)@, dividends@, i + 1).is_none());
                            lemma_dividend_overflow_stays(
                                old(cash_flows)@,
                                dividends@,
                                i + 1,
                                dividends.len() as int,
                            );
                        }
                        return Err(BookError::Overflow);
                    },
                }
            },
        }
        i += 1;
    }
    *cash_flows = flows;
    Ok((total, cumulative))
}

proof fn lemma_dividend_overflow_stays(
    cash_flows: Seq<(Day, i128)>,
    dividends: Seq<Dividend>,
    failed: int,
    count: int,
)
    requires
        failed <= count,
        dividends_booked(cash_flows, dividends, failed).is_none(),
    ensures
        dividends_booked(cash_flows, dividends, count).is_none(),
    decreases count - failed,
{
    if failed < count {
        lemma_dividend_overflow_stays(cash_flows, dividends, failed, count - 1);
    }
}

} // verus!
