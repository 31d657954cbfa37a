use portfolio_returns::broker::{
    after_dividends_page, after_orders_page, after_status, cursor_of, decimal_text,
    derive_quantity, execution_day, extract_unix, is_complete, is_filled, oldest_first,
    process_dividend_items, process_items, remove_duplicates, settle_dividends, truncate_dates,
    ApiStep, CallResponse, Dividend, Dividends, Items, Order, PageStep, ResponseType, MAX_RETRIES,
    RETRY_SECONDS,
};
use portfolio_returns::calendar::{day_index, get_time_range, range_between, CalendarError};

fn order(id: u64, ticker: &str, date: &str, quantity: i64, price: i64) -> Order {
    Order {
        id,
        ticker: ticker.to_string(),
        date_modified: date.to_string(),
        filled_quantity: quantity,
        fill_price: price,
        filled_value: 0,
        taxes: vec![],
        status: "FILLED".to_string(),
    }
}

fn dividend(ticker: &str, amount: i128, paid_on: &str) -> Dividend {
    Dividend { ticker: ticker.to_string(), amount, paid_on: paid_on.to_string() }
}

#[test]
fn extract_unix_reads_rfc3339_in_millis() {
    assert_eq!(
        extract_unix(&"2024-01-05T10:11:12.000Z".to_string()),
        Some("1704449472000".to_string())
    );
    assert_eq!(
        extract_unix(&"2024-01-05T11:11:12.250+01:00".to_string()),
        Some("1704449472250".to_string())
    );
    assert_eq!(extract_unix(&"1969-12-31T23:59:59Z".to_string()), Some("-1000".to_string()));
    assert_eq!(extract_unix(&"2024-01-05".to_string()), None);
    assert_eq!(extract_unix(&"".to_string()), None);
}

#[test]
fn page_of_orders_gives_cursor_of_last_order() {
    let page = Items {
        items: vec![
            order(2, "AAPL_US_EQ", "2024-01-06T09:00:00Z", 1, 1),
            order(1, "AAPL_US_EQ", "2024-01-05T10:11:12.000Z", 1, 1),
        ],
    };
    let (cursor, orders) = process_items(page.clone());
    assert_eq!(cursor, "1704449472000");
    assert_eq!(orders, page.items);
}

#[test]
fn empty_or_unreadable_page_completes() {
    assert_eq!(process_items(Items { items: vec![] }).0, "complete");
    let page = Items { items: vec![order(1, "AAPL_US_EQ", "yesterday", 1, 1)] };
    assert_eq!(process_items(page).0, "complete");
    assert!(is_complete(&"complete".to_string()));
    assert!(!is_complete(&"".to_string()));
}

#[test]
fn page_of_dividends_completes_without_next_page() {
    let items = vec![dividend("AAPL_US_EQ", 5, "2024-01-05T10:11:12.000Z")];
    let last = Dividends { items: items.clone(), next_page_path: None };
    assert_eq!(process_dividend_items(last), ("complete".to_string(), items.clone()));
    let more = Dividends { items: items.clone(), next_page_path: Some("/next".to_string()) };
    assert_eq!(process_dividend_items(more), ("1704449472000".to_string(), items));
}

#[test]
fn paging_appends_until_complete() {
    let mut data = vec![order(9, "A_US_EQ", "2024-02-01T00:00:00Z", 1, 1)];
    let page = Items { items: vec![order(8, "A_US_EQ", "2024-01-05T10:11:12.000Z", 1, 1)] };
    let step = after_orders_page(&mut data, Some(CallResponse::Orders(page)));
    assert_eq!(step, PageStep::Next("1704449472000".to_string()));
    assert_eq!(data.len(), 2);
    assert_eq!(data[1].id, 8);
    let step = after_orders_page(&mut data, Some(CallResponse::Orders(Items { items: vec![] })));
    assert_eq!(step, PageStep::Complete);
    assert_eq!(data.len(), 2);
}

#[test]
fn failed_call_is_not_the_end_of_the_orders() {
    let mut data = vec![order(9, "A_US_EQ", "2024-02-01T00:00:00Z", 1, 1)];
    assert_eq!(after_orders_page(&mut data, None), PageStep::Failed);
    let stray = Dividends { items: vec![], next_page_path: None };
    assert_eq!(after_orders_page(&mut data, Some(CallResponse::Divis(stray))), PageStep::Failed);
    assert_eq!(data, vec![order(9, "A_US_EQ", "2024-02-01T00:00:00Z", 1, 1)]);
    let last = Items { items: vec![order(8, "A_US_EQ", "not a timestamp", 1, 1)] };
    assert_eq!(after_orders_page(&mut data, Some(CallResponse::Orders(last))), PageStep::Complete);
    assert_eq!(data.len(), 2);
}

#[test]
fn dividend_paging_appends_until_complete() {
    let mut data: Vec<Dividend> = vec![];
    let page = Dividends {
        items: vec![dividend("A_US_EQ", 3, "2024-01-05T10:11:12.000Z")],
        next_page_path: Some("/next".to_string()),
    };
    let step = after_dividends_page(&mut data, Some(CallResponse::Divis(page)));
    assert_eq!(step, PageStep::Next("1704449472000".to_string()));
    let page = Dividends {
        items: vec![dividend("A_US_EQ", 4, "2024-01-04T10:11:12.000Z")],
        next_page_path: None,
    };
    assert_eq!(after_dividends_page(&mut data, Some(CallResponse::Divis(page))), PageStep::Complete);
    assert_eq!(data.len(), 2);
}

#[test]
fn failed_call_is_not_the_end_of_the_dividends() {
    let mut data = vec![dividend("A_US_EQ", 3, "2024-01-05T10:11:12.000Z")];
    assert_eq!(after_dividends_page(&mut data, None), PageStep::Failed);
    let stray = Items { items: vec![] };
    assert_eq!(after_dividends_page(&mut data, Some(CallResponse::Orders(stray))), PageStep::Failed);
    assert_eq!(data, vec![dividend("A_US_EQ", 3, "2024-01-05T10:11:12.000Z")]);
}

#[test]
fn status_decides_the_next_step() {
    assert_eq!(after_status(200, ResponseType::Orders, 0), ApiStep::Decode(ResponseType::Orders));
    assert_eq!(after_status(299, ResponseType::Divis, 3), ApiStep::Decode(ResponseType::Divis));
    assert_eq!(after_status(429, ResponseType::Orders, 0), ApiStep::Wait(RETRY_SECONDS));
    assert_eq!(
        after_status(429, ResponseType::Orders, MAX_RETRIES - 1),
        ApiStep::Wait(RETRY_SECONDS)
    );
    assert_eq!(after_status(429, ResponseType::Orders, MAX_RETRIES), ApiStep::Fail(429));
    assert_eq!(after_status(401, ResponseType::Orders, 0), ApiStep::Fail(401));
    assert_eq!(after_status(199, ResponseType::Orders, 0), ApiStep::Fail(199));
    assert_eq!(after_status(300, ResponseType::Orders, 0), ApiStep::Fail(300));
}

#[test]
fn dates_are_cut_to_ten_characters() {
    let mut data = vec![
        order(1, "A_US_EQ", "2024-01-05T10:11:12.000Z", 3, 4),
        order(2, "B_US_EQ", "2024-01", 5, 6),
        order(3, "C_US_EQ", "2024-01-07", 7, 8),
    ];
    truncate_dates(&mut data);
    assert_eq!(
        data,
        vec![
            order(1, "A_US_EQ", "2024-01-05", 3, 4),
            order(2, "B_US_EQ", "2024-01", 5, 6),
            order(3, "C_US_EQ", "2024-01-07", 7, 8),
        ]
    );
}

#[test]
fn dividends_are_cut_and_summed() {
    let mut data = vec![
        dividend("A_US_EQ", 120, "2024-01-05T10:11:12.000Z"),
        dividend("B_US_EQ", -20, "2024-02-05T10:11:12.000Z"),
    ];
    assert_eq!(settle_dividends(&mut data), Some(100));
    assert_eq!(
        data,
        vec![dividend("A_US_EQ", 120, "2024-01-05"), dividend("B_US_EQ", -20, "2024-02-05")]
    );
    let mut big = vec![dividend("A", i128::MAX, "2024-01-05"), dividend("A", 1, "2024-01-06")];
    assert_eq!(settle_dividends(&mut big), None);
    let mut none: Vec<Dividend> = vec![];
    assert_eq!(settle_dividends(&mut none), Some(0));
}

#[test]
fn only_filled_orders_count() {
    let mut o = order(1, "A_US_EQ", "2024-01-05", 1, 1);
    assert!(is_filled(&o));
    o.status = "CANCELLED".to_string();
    assert!(!is_filled(&o));
    o.status = "filled".to_string();
    assert!(!is_filled(&o));
}

#[test]
fn execution_day_counts_from_epoch() {
    assert_eq!(execution_day(&order(1, "A", "1970-01-01", 1, 1)), Some(0));
    assert_eq!(execution_day(&order(1, "A", "2024-01-05", 1, 1)), Some(19727));
    assert_eq!(execution_day(&order(1, "A", "1969-12-31", 1, 1)), Some(-1));
    assert_eq!(execution_day(&order(1, "A", "2024-02-30", 1, 1)), None);
    assert_eq!(execution_day(&order(1, "A", "2024-01-05T10:11:12.000Z", 1, 1)), None);
    assert_eq!(execution_day(&order(1, "A", "", 1, 1)), None);
}

#[test]
fn quantity_is_derived_from_value() {
    let mut o = order(1, "AAPL_US_EQ", "2024-01-05", 0, 200);
    o.filled_value = 100_000;
    assert_eq!(derive_quantity(&o), Some(500));
    o.filled_quantity = 7;
    assert_eq!(derive_quantity(&o), Some(7));
}

#[test]
fn london_quantity_is_corrected_for_pence() {
    let mut o = order(1, "VUSAl_EQ", "2024-01-05", 0, 200);
    o.filled_value = 100_000;
    assert_eq!(derive_quantity(&o), Some(5));
}

#[test]
fn quantity_without_price_cannot_be_derived() {
    let mut o = order(1, "AAPL_US_EQ", "2024-01-05", 0, 0);
    o.filled_value = 100_000;
    assert_eq!(derive_quantity(&o), None);
    o.fill_price = 1;
    o.filled_value = i128::MAX;
    assert_eq!(derive_quantity(&o), None);
    o.filled_value = -7;
    o.fill_price = 2;
    assert_eq!(derive_quantity(&o), Some(-3));
}

#[test]
fn duplicates_keep_first_occurrence() {
    let mut data = vec![
        order(1, "A", "d1", 1, 1),
        order(2, "B", "d2", 1, 1),
        order(1, "C", "d3", 1, 1),
        order(3, "D", "d4", 1, 1),
        order(2, "E", "d5", 1, 1),
        order(1, "F", "d6", 1, 1),
    ];
    remove_duplicates(&mut data);
    assert_eq!(
        data,
        vec![order(1, "A", "d1", 1, 1), order(2, "B", "d2", 1, 1), order(3, "D", "d4", 1, 1)]
    );
    let mut empty: Vec<Order> = vec![];
    remove_duplicates(&mut empty);
    assert!(empty.is_empty());
}

#[test]
fn time_range_spans_first_order_to_today() {
    let data = vec![order(1, "A", "2024-01-05", 1, 1), order(2, "A", "2024-01-09", 1, 1)];
    assert_eq!(get_time_range(&data, 19730), Ok(vec![19727, 19728, 19729, 19730]));
    assert_eq!(get_time_range(&data, 19727), Ok(vec![19727]));
    assert_eq!(get_time_range(&data, 19726), Ok(vec![]));
}

#[test]
fn time_range_rejects_empty_orders() {
    assert_eq!(get_time_range(&vec![], 19730), Err(CalendarError::NoOrders));
}

#[test]
fn time_range_rejects_unreadable_first_date() {
    let data = vec![order(1, "A", "05/01/2024", 1, 1)];
    assert_eq!(get_time_range(&data, 19730), Err(CalendarError::InvalidDate));
}

#[test]
fn range_between_includes_both_ends() {
    assert_eq!(range_between(-1, 2), vec![-1, 0, 1, 2]);
    assert_eq!(range_between(5, 5), vec![5]);
    assert_eq!(range_between(6, 5), Vec::<i32>::new());
    assert_eq!(range_between(i32::MAX - 1, i32::MAX), vec![i32::MAX - 1, i32::MAX]);
}

#[test]
fn day_index_finds_first_place() {
    let range = vec![10, 11, 12, 11];
    assert_eq!(day_index(&range, 11), Some(1));
    assert_eq!(day_index(&range, 13), None);
}

#[test]
fn decimal_text_writes_digits() {
    assert_eq!(decimal_text(0), "0");
    assert_eq!(decimal_text(7), "7");
    assert_eq!(decimal_text(10), "10");
    assert_eq!(decimal_text(-10), "-10");
    assert_eq!(decimal_text(1234567890), "1234567890");
    assert_eq!(decimal_text(i64::MAX), "9223372036854775807");
    assert_eq!(decimal_text(i64::MIN), "-9223372036854775808");
    for n in [-1001i64, -1, 9, 99, 100, 101, 5050, 86_400_000] {
        assert_eq!(decimal_text(n), n.to_string());
    }
}

#[test]
fn cursor_is_millis_or_complete() {
    assert_eq!(cursor_of(Some(1704449472000)), "1704449472000");
    assert_eq!(cursor_of(None), "complete");
}

#[test]
fn oldest_first_turns_history_around() {
    let mut data = vec![
        order(3, "C", "2024-01-07", 1, 1),
        order(2, "B", "2024-01-06", 1, 1),
        order(1, "A", "2024-01-05", 1, 1),
    ];
    oldest_first(&mut data);
    assert_eq!(data.iter().map(|o| o.id).collect::<Vec<u64>>(), vec![1, 2, 3]);
    let mut empty: Vec<i32> = vec![];
    oldest_first(&mut empty);
    assert!(empty.is_empty());
    let mut one = vec![5];
    oldest_first(&mut one);
    assert_eq!(one, vec![5]);
}

#[test]
fn execution_day_allows_white_space_where_the_calendar_does_not() {
    assert_eq!(execution_day(&order(1, "A", "2024-01-05 ", 1, 1)), Some(19727));
    assert_eq!(execution_day(&order(1, "A", "2024 - 1 - 5", 1, 1)), Some(19727));
    let data = vec![order(1, "A", "2024-01-05 ", 1, 1)];
    assert_eq!(get_time_range(&data, 19728), Err(CalendarError::InvalidDate));
}
