use portfolio_returns::ledger::{Holding, Position};
use portfolio_returns::unrealized::{
    calc_unreal_returns, daily_return, dividend_share, price_at, PriceHistory, ReturnError,
};

fn holding(ticker: &str, quantity: i64, average_cost: i64) -> Holding {
    Holding { ticker: ticker.to_string(), position: Position { quantity, average_cost } }
}

fn history(ticker: &str, prices: &[(i32, i64)]) -> PriceHistory {
    PriceHistory { ticker: ticker.to_string(), prices: prices.to_vec() }
}

#[test]
fn dividend_contribution_is_pro_rata() {
    assert_eq!(dividend_share(50, 2000, 10000), Some(10));
}

#[test]
fn dividend_share_needs_volume() {
    assert_eq!(dividend_share(50, 2000, 0), None);
    assert_eq!(dividend_share(i128::MAX, 2, 1), None);
    assert_eq!(dividend_share(-7, 1, 2), Some(-3));
}

#[test]
fn daily_return_formula() {
    // gain 200 + share 10 on a basis of 1000: 21 %
    assert_eq!(daily_return(1000, 1200, 10), Some(21_000_000));
    assert_eq!(daily_return(0, 1200, 10), None);
    assert_eq!(daily_return(3, 4, 0), Some(33_333_333));
    assert_eq!(daily_return(1, i128::MAX, 0), None);
}

#[test]
fn returns_over_three_days_with_forward_fill() {
    let portfolio_history = vec![
        (1, vec![holding("ACME", 10, 100)]),
        (2, vec![]),
        (3, vec![holding("ACME", 20, 110)]),
    ];
    let prices = vec![history("ACME", &[(1, 100), (2, 105), (3, 121)])];
    let (percents, valuations) = calc_unreal_returns(&portfolio_history, &prices, 440).unwrap();
    // volume total = 1000 + 1000 + 2200 = 4200
    assert_eq!(valuations, vec![(1, (1000, 1000)), (2, (1000, 1050)), (3, (2200, 2420))]);
    // day 1: share = 440 * 1000 / 4200 = 104; 100 * (0 + 104) / 1000 = 10.4 %
    // day 2: share = 440 * 2000 / 4200 = 209; 100 * (50 + 209) / 1000 = 25.9 %
    // day 3: share = 440; 100 * (220 + 440) / 2200 = 30 %
    assert_eq!(percents, vec![(1, 10_400_000), (2, 25_900_000), (3, 30_000_000)]);
}

#[test]
fn day_without_price_reuses_the_totals_of_the_day_before() {
    let portfolio_history =
        vec![(1, vec![holding("ACME", 10, 100), holding("BETA", 1, 50)]), (2, vec![]), (3, vec![])];
    let prices = vec![
        history("ACME", &[(1, 110), (2, 120), (3, 130)]),
        history("BETA", &[(1, 60), (3, 70)]),
    ];
    let (percents, valuations) = calc_unreal_returns(&portfolio_history, &prices, 0).unwrap();
    assert_eq!(valuations, vec![(1, (1050, 1160)), (2, (1050, 1160)), (3, (1050, 1370))]);
    assert_eq!(percents[0], (1, 10_476_190));
    assert_eq!(percents[1], (2, 10_476_190));
    assert_eq!(percents[2], (3, 30_476_190));
}

#[test]
fn empty_history_is_rejected() {
    let prices = vec![history("ACME", &[(1, 100)])];
    assert_eq!(calc_unreal_returns(&vec![], &prices, 10), Err(ReturnError::EmptyHistory));
}

#[test]
fn ticker_without_price_history_is_fatal() {
    let portfolio_history = vec![(1, vec![holding("ACME", 10, 100), holding("GONE", 1, 1)])];
    let prices = vec![history("ACME", &[(1, 100)])];
    assert_eq!(
        calc_unreal_returns(&portfolio_history, &prices, 0),
        Err(ReturnError::MissingPriceHistory)
    );
}

#[test]
fn calendar_without_positions_has_no_exposure() {
    let portfolio_history: Vec<(i32, Vec<Holding>)> = vec![(1, vec![]), (2, vec![])];
    assert_eq!(calc_unreal_returns(&portfolio_history, &vec![], 0), Err(ReturnError::NoExposure));
}

#[test]
fn day_before_inception_has_zero_cost_basis() {
    let portfolio_history = vec![(1, vec![]), (2, vec![holding("ACME", 10, 100)])];
    let prices = vec![history("ACME", &[(1, 100), (2, 100)])];
    assert_eq!(
        calc_unreal_returns(&portfolio_history, &prices, 0),
        Err(ReturnError::ZeroCostBasis)
    );
}

#[test]
fn sums_that_do_not_fit_overflow() {
    let big = holding("ACME", i64::MAX, i64::MAX);
    let portfolio_history = vec![(1, vec![big.clone(), big.clone(), big])];
    let prices = vec![history("ACME", &[(1, 1)])];
    assert_eq!(calc_unreal_returns(&portfolio_history, &prices, 0), Err(ReturnError::Overflow));
}

#[test]
fn percentage_that_does_not_fit_overflows() {
    let portfolio_history = vec![(1, vec![holding("ACME", 1, 1)])];
    let prices = vec![history("ACME", &[(1, i64::MAX)])];
    assert_eq!(
        calc_unreal_returns(&portfolio_history, &prices, i128::MAX),
        Err(ReturnError::Overflow)
    );
}

#[test]
fn price_at_reads_first_history_of_ticker() {
    let prices = vec![history("ACME", &[(1, 100)]), history("ACME", &[(1, 200), (2, 300)])];
    assert_eq!(price_at(&prices, &"ACME".to_string(), 1), Some(100));
    assert_eq!(price_at(&prices, &"ACME".to_string(), 2), None);
    assert_eq!(price_at(&prices, &"BETA".to_string(), 1), None);
}
