use portfolio_returns::books::{book_dividends, book_orders, process_order, BookError, Books};
use portfolio_returns::broker::{Dividend, Order};
use portfolio_returns::ledger::{Holding, Position, PositionLedger, Transition};

fn order(id: u64, ticker: &str, date: &str, quantity: i64, price: i64, status: &str) -> Order {
    Order {
        id,
        ticker: ticker.to_string(),
        date_modified: date.to_string(),
        filled_quantity: quantity,
        fill_price: price,
        filled_value: 0,
        taxes: vec![],
        status: status.to_string(),
    }
}

fn held(ticker: &str, quantity: i64, average_cost: i64) -> Holding {
    Holding { ticker: ticker.to_string(), position: Position { quantity, average_cost } }
}

#[test]
fn orders_fold_into_books() {
    // 1970-01-02 is day 1
    let orders = vec![
        order(1, "ACME", "1970-01-02", 10, 100, "FILLED"),
        order(2, "ACME", "1970-01-03", 10, 120, "FILLED"),
        order(3, "ACME", "1970-01-03", 99, 999, "CANCELLED"),
        order(4, "ACME", "1970-01-04", -15, 150, "FILLED"),
    ];
    let time_range = vec![1, 2, 3, 4, 5];
    let books = book_orders(&orders, &time_range).unwrap();
    assert_eq!(books.ledger.holdings(), &vec![held("ACME", 5, 110)]);
    assert_eq!(books.ledger.lifetime(&"ACME".to_string()), Some((1, 5)));
    assert_eq!(
        books.portfolio_history,
        vec![
            (1, vec![held("ACME", 10, 100)]),
            (2, vec![held("ACME", 20, 110)]),
            (3, vec![held("ACME", 5, 110)]),
            (4, vec![]),
            (5, vec![]),
        ]
    );
    assert_eq!(books.cash_flows, vec![(1, -1000), (2, -1200), (3, 2250)]);
    assert_eq!(books.real_returns, vec![(3, (1650, 2250))]);
}

#[test]
fn same_day_events_accumulate() {
    let orders = vec![
        order(1, "ACME", "1970-01-02", 10, 100, "FILLED"),
        order(2, "BETA", "1970-01-02", 4, 50, "FILLED"),
        order(3, "ACME", "1970-01-03", -5, 120, "FILLED"),
        order(4, "BETA", "1970-01-03", -4, 40, "FILLED"),
    ];
    let books = book_orders(&orders, &vec![1, 2]).unwrap();
    assert_eq!(books.cash_flows, vec![(1, -1200), (2, 760)]);
    assert_eq!(books.real_returns, vec![(2, (700, 760))]);
    assert_eq!(books.ledger.holdings(), &vec![held("ACME", 5, 100)]);
    assert_eq!(books.ledger.lifetime(&"BETA".to_string()), Some((1, 2)));
}

#[test]
fn no_orders_leave_open_books() {
    let books = book_orders(&vec![], &vec![7, 8]).unwrap();
    assert!(books.ledger.holdings().is_empty());
    assert_eq!(books.portfolio_history, vec![(7, vec![]), (8, vec![])]);
    assert!(books.cash_flows.is_empty());
    assert!(books.real_returns.is_empty());
}

#[test]
fn order_outside_calendar_is_refused() {
    let orders = vec![order(1, "ACME", "1970-01-09", 10, 100, "FILLED")];
    assert!(matches!(book_orders(&orders, &vec![1, 2]), Err(BookError::DateOutsideRange)));
    assert!(matches!(book_orders(&orders, &vec![]), Err(BookError::DateOutsideRange)));
}

#[test]
fn order_with_unreadable_date_is_refused() {
    let orders = vec![order(1, "ACME", "soon", 10, 100, "CANCELLED")];
    assert!(matches!(book_orders(&orders, &vec![1, 2]), Err(BookError::InvalidDate)));
}

#[test]
fn record_keeps_books_on_refusal() {
    let mut books = Books::open(&vec![1, 2]);
    books.record(&order(1, "ACME", "1970-01-02", i64::MAX, 1, "FILLED"), 2).unwrap();
    let refused = books.record(&order(2, "ACME", "1970-01-03", 1, 1, "FILLED"), 2);
    assert_eq!(refused, Err(BookError::Overflow));
    assert_eq!(books.ledger.holdings(), &vec![held("ACME", i64::MAX, 1)]);
    assert_eq!(books.portfolio_history, vec![(1, vec![held("ACME", i64::MAX, 1)]), (2, vec![])]);
    assert_eq!(books.cash_flows, vec![(1, -(i64::MAX as i128))]);
}

#[test]
fn process_order_posts_cash_and_realized() {
    let mut ledger = PositionLedger::new();
    let mut real_returns: Vec<(i32, (i128, i128))> = Vec::new();
    let mut cash_flows: Vec<(i32, i128)> = Vec::new();
    let bought = process_order(
        &order(1, "ACME", "1970-01-02", 10, 100, "FILLED"),
        &mut ledger,
        &mut real_returns,
        &mut cash_flows,
        9,
    )
    .unwrap();
    assert_eq!(bought.transition, Transition::Open);
    let sold = process_order(
        &order(2, "ACME", "1970-01-02", -10, 90, "FILLED"),
        &mut ledger,
        &mut real_returns,
        &mut cash_flows,
        9,
    )
    .unwrap();
    assert_eq!(sold.transition, Transition::FullExit);
    assert_eq!(cash_flows, vec![(1, -100)]);
    assert_eq!(real_returns, vec![(1, (1000, 900))]);
    assert!(ledger.holdings().is_empty());
}

#[test]
fn process_order_refuses_sums_that_do_not_fit() {
    let mut ledger = PositionLedger::new();
    let mut real_returns: Vec<(i32, (i128, i128))> = Vec::new();
    let mut cash_flows: Vec<(i32, i128)> = vec![(1, i128::MIN)];
    let refused = process_order(
        &order(1, "ACME", "1970-01-02", 10, 100, "FILLED"),
        &mut ledger,
        &mut real_returns,
        &mut cash_flows,
        9,
    );
    assert_eq!(refused, Err(BookError::Overflow));
    assert!(ledger.holdings().is_empty());
    assert!(ledger.ticker_history().is_empty());
    assert_eq!(cash_flows, vec![(1, i128::MIN)]);
    let unreadable = process_order(
        &order(1, "ACME", "tomorrow", 10, 100, "FILLED"),
        &mut ledger,
        &mut real_returns,
        &mut cash_flows,
        9,
    );
    assert_eq!(unreadable, Err(BookError::InvalidDate));
}

#[test]
fn dividends_enter_cash_flows_and_totals() {
    let dividends = vec![
        Dividend { ticker: "ACME".to_string(), amount: 30, paid_on: "1970-01-03".to_string() },
        Dividend { ticker: "BETA".to_string(), amount: 5, paid_on: "no date".to_string() },
        Dividend { ticker: "BETA".to_string(), amount: 20, paid_on: "1970-01-03".to_string() },
        Dividend { ticker: "ACME".to_string(), amount: 7, paid_on: "1970-01-06".to_string() },
    ];
    let mut cash_flows: Vec<(i32, i128)> = vec![(1, -1000), (2, -1200)];
    let (total, cumulative) = book_dividends(&dividends, &mut cash_flows).unwrap();
    assert_eq!(total, 57);
    assert_eq!(cumulative, vec![(2, 50), (5, 57)]);
    assert_eq!(cash_flows, vec![(1, -1000), (2, -1150), (5, 7)]);
}

#[test]
fn dividends_that_do_not_fit_leave_cash_flows() {
    let dividends = vec![
        Dividend { ticker: "ACME".to_string(), amount: 30, paid_on: "1970-01-03".to_string() },
        Dividend {
            ticker: "ACME".to_string(),
            amount: i128::MAX,
            paid_on: "1970-01-04".to_string(),
        },
    ];
    let mut cash_flows: Vec<(i32, i128)> = vec![(1, -1000)];
    assert_eq!(book_dividends(&dividends, &mut cash_flows), Err(BookError::Overflow));
    assert_eq!(cash_flows, vec![(1, -1000)]);
}
