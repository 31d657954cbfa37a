use portfolio_returns::realized::{
    absolute_return, absolute_returns, calculate_benchmark_returns, realized_series,
    relative_return, relative_returns, ANCHOR,
};

#[test]
fn realized_series_accumulates_and_stretches() {
    let events: Vec<(i32, (i128, i128))> = vec![(3, (1650, 2250)), (5, (100, 50))];
    let series = realized_series(&events, 1, 7).unwrap();
    assert_eq!(
        series,
        vec![
            (1, (ANCHOR, ANCHOR)),
            (2, (ANCHOR, ANCHOR)),
            (3, (1650, 2250)),
            (4, (1650, 2250)),
            (5, (1750, 2300)),
            (6, (1750, 2300)),
            (7, (1750, 2300)),
        ]
    );
}

#[test]
fn realized_series_without_events() {
    let series = realized_series(&vec![], 1, 3).unwrap();
    assert_eq!(series, vec![(1, (1, 1)), (2, (1, 1)), (3, (0, 0))]);
}

#[test]
fn realized_series_overflow() {
    let events: Vec<(i32, (i128, i128))> = vec![(3, (i128::MAX, 0)), (5, (1, 0))];
    assert_eq!(realized_series(&events, 1, 7), None);
    let events: Vec<(i32, (i128, i128))> = vec![(3, (0, i128::MIN)), (5, (0, -1))];
    assert_eq!(realized_series(&events, 1, 7), None);
}

#[test]
fn absolute_and_relative_return_of_an_exit() {
    assert_eq!(absolute_return(1650, 2250), Some(600));
    // 100 * (2250 / 1650 - 1) = 36.363636 %
    assert_eq!(relative_return(1650, 2250), Some(36_363_636));
    assert_eq!(relative_return(1, 1), Some(0));
    assert_eq!(relative_return(200, 150), Some(-25_000_000));
    assert_eq!(relative_return(0, 5), None);
    assert_eq!(absolute_return(i128::MIN, 1), None);
    assert_eq!(relative_return(1, i128::MAX), None);
}

#[test]
fn returns_of_every_day() {
    let series: Vec<(i32, (i128, i128))> = vec![(1, (1, 1)), (2, (1650, 2250))];
    assert_eq!(absolute_returns(&series), Some(vec![(1, 0), (2, 600)]));
    assert_eq!(relative_returns(&series), Some(vec![(1, 0), (2, 36_363_636)]));
    let broken: Vec<(i32, (i128, i128))> = vec![(1, (1, 1)), (2, (0, 0))];
    assert_eq!(absolute_returns(&broken), Some(vec![(1, 0), (2, 0)]));
    assert_eq!(relative_returns(&broken), None);
    let wide: Vec<(i32, (i128, i128))> = vec![(1, (i128::MIN, 1))];
    assert_eq!(absolute_returns(&wide), None);
}

#[test]
fn benchmark_returns_are_relative_to_first_price() {
    let prices: Vec<(i32, i64)> = vec![(1, 4000), (2, 4400), (3, 3000), (4, 4000)];
    assert_eq!(
        calculate_benchmark_returns(&prices),
        Some(vec![10_000_000, -25_000_000, 0])
    );
    assert_eq!(calculate_benchmark_returns(&vec![]), Some(vec![]));
    assert_eq!(calculate_benchmark_returns(&vec![(1, 0)]), Some(vec![]));
    assert_eq!(calculate_benchmark_returns(&vec![(1, 0), (2, 5)]), None);
    let wide: Vec<(i32, i64)> = vec![(1, 1), (2, i64::MIN), (3, i64::MAX)];
    assert_eq!(
        calculate_benchmark_returns(&wide),
        Some(vec![
            (i64::MIN as i128 - 1) * 100_000_000,
            (i64::MAX as i128 - 1) * 100_000_000,
        ])
    );
}
