use simex::text::{parse_rate, split_pair};

#[test]
fn rate_whole_number() {
    assert_eq!(parse_rate("9000"), Some(9_000_000_000));
    assert_eq!(parse_rate("0"), Some(0));
    assert_eq!(parse_rate("1"), Some(1_000_000));
}

#[test]
fn rate_with_fraction() {
    assert_eq!(parse_rate("9.25"), Some(9_250_000));
    assert_eq!(parse_rate("0.5"), Some(500_000));
    assert_eq!(parse_rate("0.000001"), Some(1));
}

#[test]
fn rate_bare_point_forms() {
    assert_eq!(parse_rate("9."), Some(9_000_000));
    assert_eq!(parse_rate(".5"), Some(500_000));
}

#[test]
fn rate_fraction_truncated_past_six_places() {
    assert_eq!(parse_rate("1.2345678"), Some(1_234_567));
    assert_eq!(parse_rate("0.9999999"), Some(999_999));
}

#[test]
fn rate_rejects_malformed_text() {
    assert_eq!(parse_rate(""), None);
    assert_eq!(parse_rate("."), None);
    assert_eq!(parse_rate("1..2"), None);
    assert_eq!(parse_rate("1.2.3"), None);
    assert_eq!(parse_rate("abc"), None);
    assert_eq!(parse_rate("9e3"), None);
    assert_eq!(parse_rate("-1"), None);
    assert_eq!(parse_rate("1 "), None);
}

#[test]
fn rate_rejects_out_of_range() {
    // 10^20 micro-units would not fit u64 even before scaling.
    assert_eq!(parse_rate("100000000000000000000"), None);
    // Just under and just over the largest representable rate.
    assert_eq!(parse_rate("18446744073709.551615"), Some(u64::MAX));
    assert_eq!(parse_rate("18446744073709.551616"), None);
}

#[test]
fn pair_splits_at_single_underscore() {
    assert_eq!(
        split_pair("btc_usd"),
        Some(("btc".to_string(), "usd".to_string()))
    );
    assert_eq!(
        split_pair("BTC_USD"),
        Some(("BTC".to_string(), "USD".to_string()))
    );
    assert_eq!(split_pair("_usd"), Some(("".to_string(), "usd".to_string())));
}

#[test]
fn pair_rejects_other_shapes() {
    assert_eq!(split_pair("btcusd"), None);
    assert_eq!(split_pair("a_b_c"), None);
    assert_eq!(split_pair(""), None);
}
