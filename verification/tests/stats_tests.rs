use portfolio_returns::stats::{covariance, get_daily_returns, HUNDRED};

#[test]
fn daily_returns_follow_the_level() {
    // cumulative 10 %, then 21 %
    let daily = get_daily_returns(vec![10_000_000, 21_000_000]).unwrap();
    // day 1: (10 + 100 - 100) / 100 = 10 %; the level rises to 110
    // day 2: (21 + 100 - 110) / 110 = 10 %
    assert_eq!(daily, vec![10_000_000, 10_000_000]);
}

#[test]
fn daily_returns_round_toward_zero() {
    let daily = get_daily_returns(vec![1, -1]).unwrap();
    // day 1: 1 * 100_000_000 / 100_000_000 = 1; the level rises by 1
    // day 2: (-1 - 1) * 100_000_000 / 100_000_001 = -1.99..., rounded to -1
    assert_eq!(daily, vec![1, -1]);
}

#[test]
fn daily_returns_of_nothing() {
    assert_eq!(get_daily_returns(vec![]), Some(vec![]));
}

#[test]
fn daily_return_against_zero_level_cannot_be_told() {
    // the first day loses everything: the level falls to zero
    assert_eq!(get_daily_returns(vec![-HUNDRED]), Some(vec![-HUNDRED]));
    assert_eq!(get_daily_returns(vec![-HUNDRED, 5]), None);
    assert_eq!(get_daily_returns(vec![i128::MAX]), None);
}

#[test]
fn covariance_is_mean_product_of_deviations() {
    let ours = vec![1, 2, 3, 4];
    let theirs = vec![2, 4, 6, 8];
    // means 2 and 5: (-1)(-3) + 0(-1) + 1(1) + 2(3) = 10; 10 / 4 = 2
    assert_eq!(covariance(&ours, &theirs, 2, 5), Some(2));
}

#[test]
fn covariance_pairs_place_by_place() {
    let ours = vec![10, 20, 30];
    let theirs = vec![1];
    // one pair: (10 - 20)(1 - 1) = 0, over three returns
    assert_eq!(covariance(&ours, &theirs, 20, 1), Some(0));
    let theirs = vec![4];
    // (10 - 20)(4 - 1) = -30, over three returns
    assert_eq!(covariance(&ours, &theirs, 20, 1), Some(-10));
}

#[test]
fn covariance_needs_returns_that_fit() {
    assert_eq!(covariance(&vec![], &vec![1], 0, 0), None);
    assert_eq!(covariance(&vec![i128::MAX], &vec![1], -1, 0), None);
    assert_eq!(covariance(&vec![i128::MAX], &vec![2], 0, 0), None);
    assert_eq!(covariance(&vec![1, 1], &vec![i128::MAX, i128::MAX], 0, 0), None);
    assert_eq!(covariance(&vec![1], &vec![], 0, 0), Some(0));
}
