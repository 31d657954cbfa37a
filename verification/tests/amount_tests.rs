use portfolio_returns::amount::{
    checked_difference, checked_product, checked_quotient, checked_sum, product,
};
use portfolio_returns::text::{characters, contains, prefix, text_contains};

#[test]
fn product_of_extremes_fits() {
    assert_eq!(product(i64::MIN, i64::MIN), 1i128 << 126);
    assert_eq!(product(i64::MIN, i64::MAX), -(1i128 << 126) + (1i128 << 63));
    assert_eq!(product(-3, 7), -21);
    assert_eq!(product(0, i64::MIN), 0);
}

#[test]
fn sums_and_differences_are_checked() {
    assert_eq!(checked_sum(2, 3), Some(5));
    assert_eq!(checked_sum(i128::MAX, 1), None);
    assert_eq!(checked_sum(i128::MIN, -1), None);
    assert_eq!(checked_sum(i128::MAX, i128::MIN), Some(-1));
    assert_eq!(checked_difference(2, 3), Some(-1));
    assert_eq!(checked_difference(i128::MIN, 1), None);
    assert_eq!(checked_difference(0, i128::MIN), None);
    assert_eq!(checked_difference(-1, i128::MIN), Some(i128::MAX));
}

#[test]
fn products_are_checked() {
    assert_eq!(checked_product(6, -7), Some(-42));
    assert_eq!(checked_product(i128::MAX, 2), None);
    assert_eq!(checked_product(i128::MIN, -1), None);
    assert_eq!(checked_product(i128::MIN, 1), Some(i128::MIN));
}

#[test]
fn quotients_round_toward_zero() {
    assert_eq!(checked_quotient(7, 2), Some(3));
    assert_eq!(checked_quotient(-7, 2), Some(-3));
    assert_eq!(checked_quotient(7, -2), Some(-3));
    assert_eq!(checked_quotient(-7, -2), Some(3));
    assert_eq!(checked_quotient(6, 3), Some(2));
    assert_eq!(checked_quotient(0, -5), Some(0));
}

#[test]
fn quotients_at_the_edges() {
    assert_eq!(checked_quotient(1, 0), None);
    assert_eq!(checked_quotient(i128::MIN, -1), None);
    assert_eq!(checked_quotient(i128::MIN, 1), Some(i128::MIN));
    assert_eq!(checked_quotient(i128::MIN, i128::MIN), Some(1));
    assert_eq!(checked_quotient(i128::MAX, i128::MIN), Some(0));
    assert_eq!(checked_quotient(i128::MIN + 1, i128::MIN), Some(0));
    assert_eq!(checked_quotient(i128::MAX, -1), Some(i128::MIN + 1));
    assert_eq!(checked_quotient(i128::MIN, 2), Some(-(1i128 << 126)));
    assert_eq!(checked_quotient(i128::MIN, -2), Some(1i128 << 126));
}

#[test]
fn text_is_searched_by_characters() {
    assert!(text_contains("VUSAl_EQ", "l_EQ"));
    assert!(!text_contains("VUSA_US_EQ", "l_EQ"));
    assert!(text_contains("abc", ""));
    assert!(text_contains("", ""));
    assert!(!text_contains("", "a"));
    assert!(!text_contains("ab", "abc"));
    assert!(text_contains("aab", "ab"));
    assert!(text_contains("ÄÖÜ.L", ".L"));
    assert!(contains(&vec!['a', 'b', 'c'], &vec!['b', 'c']));
    assert!(!contains(&vec!['a', 'b', 'c'], &vec!['c', 'b']));
}

#[test]
fn text_is_cut_by_characters() {
    assert_eq!(characters("aÄb"), vec!['a', 'Ä', 'b']);
    assert_eq!(characters(""), Vec::<char>::new());
    assert_eq!(prefix("2024-01-05T10:11:12Z", 10), "2024-01-05");
    assert_eq!(prefix("ÄÖÜ", 2), "ÄÖ");
    assert_eq!(prefix("abc", 3), "abc");
    assert_eq!(prefix("abc", 9), "abc");
    assert_eq!(prefix("abc", 0), "");
}
