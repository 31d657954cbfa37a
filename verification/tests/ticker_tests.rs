use portfolio_returns::ticker::{convert_to_yahoo_ticker, try_convert_to_yahoo_ticker};

fn convert(ticker: &str) -> Option<String> {
    try_convert_to_yahoo_ticker(&ticker.to_string())
}

#[test]
fn us_ticker_is_bare_symbol() {
    assert_eq!(convert_to_yahoo_ticker("AAPL_US_EQ".to_string()), "AAPL");
}

#[test]
fn exchange_letter_becomes_suffix() {
    assert_eq!(convert_to_yahoo_ticker("VUSAl_EQ".to_string()), "VUSA.L");
    assert_eq!(convert_to_yahoo_ticker("ASMLa_EQ".to_string()), "ASML.AS");
    assert_eq!(convert_to_yahoo_ticker("SAPd_EQ".to_string()), "SAP.DE");
    assert_eq!(convert_to_yahoo_ticker("ITXe_EQ".to_string()), "ITX.MC");
    assert_eq!(convert_to_yahoo_ticker("MCp_EQ".to_string()), "MC.PA");
    assert_eq!(convert_to_yahoo_ticker("NESNs_EQ".to_string()), "NESN.SW");
    assert_eq!(convert_to_yahoo_ticker("ENIm_EQ".to_string()), "ENI.MI");
}

#[test]
fn country_code_becomes_suffix() {
    assert_eq!(convert_to_yahoo_ticker("EDP_PT_EQ".to_string()), "EDP.LS");
    assert_eq!(convert_to_yahoo_ticker("OMV_AT_EQ".to_string()), "OMV.VI");
    assert_eq!(convert_to_yahoo_ticker("ABI_BE_EQ".to_string()), "ABI.BR");
    assert_eq!(convert_to_yahoo_ticker("SHOP_CA_EQ".to_string()), "SHOP.TO");
}

#[test]
fn ticker_without_marker_is_empty() {
    assert_eq!(convert("AAPL"), Some(String::new()));
    assert_eq!(convert(""), Some(String::new()));
    assert_eq!(convert("EQ"), Some(String::new()));
}

#[test]
fn stem_with_two_underscores_is_empty() {
    assert_eq!(convert("A_B_US_EQ"), Some(String::new()));
}

#[test]
fn last_marker_counts() {
    assert_eq!(convert("AB_EQ_US_EQ"), Some(String::new()));
    assert_eq!(convert("ABl_EQ_EQ"), None);
}

#[test]
fn unknown_exchange_or_country_is_not_converted() {
    assert_eq!(convert("ABCx_EQ"), None);
    assert_eq!(convert("ABC_XX_EQ"), None);
    assert_eq!(convert("ABC_USA_EQ"), None);
    assert_eq!(convert("ABC__EQ"), None);
    assert_eq!(convert("_EQ"), None);
}

#[test]
fn symbol_may_be_empty_before_country() {
    assert_eq!(convert("_US_EQ"), Some(String::new()));
    assert_eq!(convert("_CA_EQ"), Some(".TO".to_string()));
}

#[test]
fn characters_beyond_ascii_are_kept() {
    assert_eq!(convert("ÄÖ_US_EQ"), Some("ÄÖ".to_string()));
    assert_eq!(convert("Äl_EQ"), Some("Ä.L".to_string()));
    assert_eq!(convert("AÄ_EQ"), None);
}
