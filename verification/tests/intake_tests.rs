use portfolio_returns::broker::Order;
use portfolio_returns::fx::FxError;
use portfolio_returns::intake::{prepare_order, prepare_orders, IntakeError};
use portfolio_returns::unrealized::PriceHistory;

fn order(ticker: &str, date: &str, quantity: i64, price: i64, value: i128, status: &str) -> Order {
    Order {
        id: 1,
        ticker: ticker.to_string(),
        date_modified: date.to_string(),
        filled_quantity: quantity,
        fill_price: price,
        filled_value: value,
        taxes: vec![],
        status: status.to_string(),
    }
}

fn rates() -> Vec<PriceHistory> {
    // 1970-01-11 is day 10
    vec![PriceHistory { ticker: "GBPUSD".to_string(), prices: vec![(10, 1_250_000)] }]
}

#[test]
fn order_by_value_is_prepared() {
    let mut o = order("AAPL_US_EQ", "1970-01-11", 0, 2_500, 100_000, "FILLED");
    assert_eq!(prepare_order(&mut o, &rates()), Ok(()));
    assert_eq!(o, order("AAPL", "1970-01-11", 40, 2_000, 100_000, "FILLED"));
}

#[test]
fn london_order_needs_no_rate() {
    let mut o = order("VUSAl_EQ", "1970-01-11", 3, 7_050, 0, "FILLED");
    assert_eq!(prepare_order(&mut o, &vec![]), Ok(()));
    assert_eq!(o, order("VUSA.L", "1970-01-11", 3, 70, 0, "FILLED"));
}

#[test]
fn unfilled_order_without_quantity_goes_on() {
    let mut o = order("AAPL_US_EQ", "1970-01-11", 0, 0, 0, "CANCELLED");
    assert_eq!(prepare_order(&mut o, &rates()), Ok(()));
    assert_eq!(o, order("AAPL", "1970-01-11", 0, 0, 0, "CANCELLED"));
}

#[test]
fn each_obstacle_leaves_the_order() {
    let cases = vec![
        (order("AAPL_US_EQ", "1970-01-11", 0, 0, 5, "FILLED"), IntakeError::NoQuantity),
        (order("AAPL_XX_EQ", "1970-01-11", 1, 1, 5, "FILLED"), IntakeError::UnknownMarket),
        (order("AAPL_US_EQ", "on the 11th", 1, 1, 5, "FILLED"), IntakeError::InvalidDate),
        (
            order("AAPL_US_EQ", "1970-01-12", 1, 1, 5, "FILLED"),
            IntakeError::Fx(FxError::MissingRate),
        ),
    ];
    for (given, error) in cases {
        let mut o = given.clone();
        assert_eq!(prepare_order(&mut o, &rates()), Err(error));
        assert_eq!(o, given);
    }
}

#[test]
fn orders_are_prepared_up_to_the_first_obstacle() {
    let mut data = vec![
        order("AAPL_US_EQ", "1970-01-11", 2, 2_500, 0, "FILLED"),
        order("AAPL_??_EQ", "1970-01-11", 2, 2_500, 0, "FILLED"),
        order("MSFT_US_EQ", "1970-01-11", 2, 2_500, 0, "FILLED"),
    ];
    assert_eq!(prepare_orders(&mut data, &rates()), Err((1, IntakeError::UnknownMarket)));
    assert_eq!(
        data,
        vec![
            order("AAPL", "1970-01-11", 2, 2_000, 0, "FILLED"),
            order("AAPL_??_EQ", "1970-01-11", 2, 2_500, 0, "FILLED"),
            order("MSFT_US_EQ", "1970-01-11", 2, 2_500, 0, "FILLED"),
        ]
    );
    let mut data = vec![order("AAPL_US_EQ", "1970-01-11", 2, 2_500, 0, "FILLED")];
    assert_eq!(prepare_orders(&mut data, &rates()), Ok(()));
    assert_eq!(data, vec![order("AAPL", "1970-01-11", 2, 2_000, 0, "FILLED")]);
    let mut none: Vec<Order> = vec![];
    assert_eq!(prepare_orders(&mut none, &rates()), Ok(()));
}
