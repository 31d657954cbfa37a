use portfolio_returns::fx::{fx_adjust, quote_currency, try_fx_adjust, Currency, FxError};
use portfolio_returns::prices::{
    interpolate_weekends, pair_closes, query_window, to_unix, PriceError,
};
use portfolio_returns::unrealized::PriceHistory;

fn rates() -> Vec<PriceHistory> {
    vec![
        PriceHistory { ticker: "GBPUSD".to_string(), prices: vec![(10, 1_250_000), (11, 0)] },
        PriceHistory { ticker: "GBPEUR".to_string(), prices: vec![(10, 1_160_000)] },
        PriceHistory { ticker: "GBPCAD".to_string(), prices: vec![(10, 1_700_000)] },
    ]
}

#[test]
fn closes_are_paired_with_their_days() {
    let timestamps = vec![Some(1704412800), Some(1704499200 + 3600), None, Some(1704672000)];
    let closes = vec![Some(100), None, Some(300), Some(400)];
    assert_eq!(pair_closes(&timestamps, &closes), Ok(vec![(19727, 100), (19730, 400)]));
}

#[test]
fn later_close_of_a_day_replaces_earlier() {
    let timestamps = vec![Some(86_400 * 3), Some(86_400), Some(86_400 + 5), Some(-1)];
    let closes = vec![Some(30), Some(10), Some(11), Some(9)];
    assert_eq!(pair_closes(&timestamps, &closes), Ok(vec![(-1, 9), (1, 11), (3, 30)]));
}

#[test]
fn closes_shorter_than_timestamps() {
    let timestamps = vec![Some(0), Some(86_400)];
    let closes = vec![Some(5)];
    assert_eq!(pair_closes(&timestamps, &closes), Ok(vec![(0, 5)]));
}

#[test]
fn report_without_prices_fails_loudly() {
    assert_eq!(pair_closes(&vec![], &vec![]), Err(PriceError::NoData));
    assert_eq!(pair_closes(&vec![Some(0)], &vec![None]), Err(PriceError::NoData));
}

#[test]
fn timestamp_out_of_range_is_an_error() {
    assert_eq!(pair_closes(&vec![Some(i64::MAX)], &vec![Some(1)]), Err(PriceError::BadTimestamp));
}

#[test]
fn window_starts_a_day_early() {
    assert_eq!(to_unix(19727), 1704412800);
    assert_eq!(query_window(19727, 19730), (1704326400, 1704672000));
    assert_eq!(query_window(19727, 19726), (1704326400, 1704240000));
    assert_eq!(to_unix(i32::MIN), -185_542_587_187_200);
}

#[test]
fn weekends_are_filled_for_every_ticker() {
    let mut full_history = vec![
        PriceHistory { ticker: "A".to_string(), prices: vec![(5, 100), (8, 110)] },
        PriceHistory { ticker: "B".to_string(), prices: vec![] },
        PriceHistory { ticker: "C".to_string(), prices: vec![(1, 7), (2, 8)] },
    ];
    interpolate_weekends(&mut full_history);
    assert_eq!(
        full_history,
        vec![
            PriceHistory {
                ticker: "A".to_string(),
                prices: vec![(5, 100), (6, 100), (7, 100), (8, 110)],
            },
            PriceHistory { ticker: "B".to_string(), prices: vec![] },
            PriceHistory { ticker: "C".to_string(), prices: vec![(1, 7), (2, 8)] },
        ]
    );
}

#[test]
fn currency_follows_market_suffix() {
    assert_eq!(quote_currency(&"SHOP.TO".to_string()), Currency::Cad);
    assert_eq!(quote_currency(&"ASML.AS".to_string()), Currency::Eur);
    assert_eq!(quote_currency(&"EDP.LS".to_string()), Currency::Eur);
    assert_eq!(quote_currency(&"VUSA.L".to_string()), Currency::Pence);
    assert_eq!(quote_currency(&"AAPL".to_string()), Currency::Usd);
    assert_eq!(quote_currency(&"OMV.VI".to_string()), Currency::Usd);
    assert_eq!(quote_currency(&"X.TO.AS".to_string()), Currency::Cad);
}

#[test]
fn price_is_divided_by_rate() {
    let fx = rates();
    let mut price: i64 = 2_500;
    fx_adjust(&"AAPL".to_string(), 10, &mut price, &fx);
    assert_eq!(price, 2_000);
    let mut price: i64 = 1_000;
    fx_adjust(&"ASML.AS".to_string(), 10, &mut price, &fx);
    assert_eq!(price, 862);
    let mut price: i64 = 1_700;
    fx_adjust(&"SHOP.TO".to_string(), 10, &mut price, &fx);
    assert_eq!(price, 1_000);
    let mut price: i64 = -2_501;
    assert_eq!(try_fx_adjust(&"AAPL".to_string(), 10, &mut price, &fx), Ok(()));
    assert_eq!(price, -2_000);
}

#[test]
fn pence_are_divided_by_hundred() {
    let mut price: i64 = 12_345;
    fx_adjust(&"VUSA.L".to_string(), 99, &mut price, &vec![]);
    assert_eq!(price, 123);
    let mut price: i64 = -199;
    assert_eq!(try_fx_adjust(&"VUSA.L".to_string(), 99, &mut price, &vec![]), Ok(()));
    assert_eq!(price, -1);
}

#[test]
fn missing_or_zero_rate_leaves_price() {
    let fx = rates();
    let mut price: i64 = 2_500;
    assert_eq!(
        try_fx_adjust(&"AAPL".to_string(), 12, &mut price, &fx),
        Err(FxError::MissingRate)
    );
    assert_eq!(price, 2_500);
    assert_eq!(try_fx_adjust(&"AAPL".to_string(), 11, &mut price, &fx), Err(FxError::ZeroRate));
    assert_eq!(price, 2_500);
    assert_eq!(
        try_fx_adjust(&"AAPL".to_string(), 10, &mut price, &vec![]),
        Err(FxError::MissingRate)
    );
    let tiny = vec![PriceHistory { ticker: "GBPUSD".to_string(), prices: vec![(10, 1)] }];
    let mut price: i64 = i64::MAX;
    assert_eq!(try_fx_adjust(&"AAPL".to_string(), 10, &mut price, &tiny), Err(FxError::Overflow));
    assert_eq!(price, i64::MAX);
}
