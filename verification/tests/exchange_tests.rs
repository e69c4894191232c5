use simex::exchange::{Exchange, FinalizeError};

const TICK0: &str = r#"[{"pair": "btc_usd", "rate": "9000"}]"#;
const TICK1: &str = r#"[
    {"pair": "btc_usd", "rate": "9100"},
    {"pair": "eth_usd", "rate": "300"}
]"#;

fn venue() -> Exchange {
    let texts = vec![TICK0.to_string(), TICK1.to_string()];
    Exchange::new(&texts).unwrap()
}

#[test]
fn an_empty_history_is_a_venue_without_rates() {
    let mut ex = Exchange::new(&Vec::new()).unwrap();
    assert!(ex.get_currencies().is_empty());
    assert!(ex.query("btc").is_err());
    ex.tick();
    assert!(ex.get_currencies().is_empty());
    assert_eq!(ex.query_history("btc", 1000).len(), 1);
    assert!(ex.query_history("btc", 1000)[0].values.is_empty());
}

#[test]
fn construction_fails_on_first_bad_snapshot() {
    let texts = vec![TICK0.to_string(), "broken".to_string()];
    assert!(Exchange::new(&texts).is_err());
}

#[test]
fn currencies_accumulate_monotonically() {
    let mut ex = venue();
    let mut seen = ex.get_currencies();
    seen.sort();
    assert_eq!(seen, vec!["btc".to_string()]);

    ex.tick();
    ex.tick();
    // Two ticks on: eth joined at tick one and btc is still known, even
    // though tick two lies past the loaded snapshots.
    let mut seen = ex.get_currencies();
    seen.sort();
    assert_eq!(seen, vec!["btc".to_string(), "eth".to_string()]);
}

#[test]
fn query_at_reads_the_stored_snapshot() {
    let ex = venue();
    let t0 = ex.query_at("btc", 0).unwrap();
    assert_eq!(t0.get("usd"), Some(9_000_000_000));
    assert_eq!(t0.timestamp, 0);
    let t1 = ex.query_at("btc", 1).unwrap();
    assert_eq!(t1.get("usd"), Some(9_100_000_000));
    assert_eq!(t1.timestamp, 1000);
}

#[test]
fn query_at_is_stable_across_calls_and_ticks() {
    let mut ex = venue();
    let before = ex.query_at("btc", 0).unwrap();
    let again = ex.query_at("btc", 0).unwrap();
    assert_eq!(before.get("usd"), again.get("usd"));
    assert_eq!(before.timestamp, again.timestamp);
    ex.tick();
    let after = ex.query_at("btc", 0).unwrap();
    assert_eq!(before.get("usd"), after.get("usd"));
    assert_eq!(before.timestamp, after.timestamp);
}

#[test]
fn query_at_misses_are_errors() {
    let ex = venue();
    assert!(ex.query_at("eth", 0).is_err());
    assert!(ex.query_at("xyz", 1).is_err());
    assert!(ex.query_at("btc", 5).is_err());
}

#[test]
fn query_serves_the_current_tick() {
    let mut ex = venue();
    assert_eq!(ex.query("btc").unwrap().get("usd"), Some(9_000_000_000));
    ex.tick();
    assert_eq!(ex.query("btc").unwrap().get("usd"), Some(9_100_000_000));
    assert!(ex.query("eth").unwrap().get("usd") == Some(300_000_000));
}

#[test]
fn history_counts_entries_by_integer_division() {
    let mut ex = venue();
    ex.tick();
    ex.tick();
    assert_eq!(ex.query_history("btc", 0).len(), 0);
    assert_eq!(ex.query_history("btc", 1999).len(), 1);
    assert_eq!(ex.query_history("btc", 2000).len(), 2);
}

#[test]
fn history_timestamps_ascend_by_a_thousand() {
    let mut ex = venue();
    ex.tick();
    ex.tick();
    let h = ex.query_history("btc", 2000);
    assert_eq!(h[0].timestamp, 0);
    assert_eq!(h[1].timestamp, 1000);
    assert_eq!(h[0].get("usd"), Some(9_000_000_000));
    assert_eq!(h[1].get("usd"), Some(9_100_000_000));
}

#[test]
fn history_substitutes_empty_tables_for_misses() {
    let mut ex = venue();
    ex.tick();
    ex.tick();
    // eth has no table at tick zero: the entry is empty, not an error.
    let h = ex.query_history("eth", 2000);
    assert_eq!(h.len(), 2);
    assert!(h[0].values.is_empty());
    assert_eq!(h[0].timestamp, 0);
    assert_eq!(h[1].get("usd"), Some(300_000_000));
}

#[test]
fn invoice_names_address_source_currency_and_amount() {
    let mut ex = venue();
    let invoice = ex.initiate_transaction("btc", "usd", 2_000_000, "payout");
    assert_eq!(invoice.currency, "btc");
    assert_eq!(invoice.amount, 2_000_000);
    assert_eq!(invoice.address.len(), 16);
    assert!(invoice.address.chars().all(|c| c.is_ascii_alphanumeric()));
}

#[test]
fn settlement_uses_the_rate_current_at_finalize_time() {
    let mut ex = venue();
    // Initiated at tick zero (btc/usd 9000), settled at tick one (9100):
    // 2.0 btc settle to 18200.0 usd, priced after the clock advanced.
    let invoice = ex.initiate_transaction("btc", "usd", 2_000_000, "payout");
    ex.tick();
    let (currency, amount) = ex.finalize_transaction(&invoice.address).unwrap();
    assert_eq!(currency, "usd");
    assert_eq!(amount, 18_200_000_000);
}

#[test]
fn settlement_at_the_same_tick_uses_that_tick() {
    let mut ex = venue();
    let invoice = ex.initiate_transaction("btc", "usd", 500_000, "payout");
    let (currency, amount) = ex.finalize_transaction(&invoice.address).unwrap();
    assert_eq!(currency, "usd");
    assert_eq!(amount, 4_500_000_000);
}

#[test]
fn unknown_address_yields_zero_marker_and_no_mutation() {
    let mut ex = venue();
    ex.initiate_transaction("btc", "usd", 2_000_000, "payout");
    let pending_before = ex.pending_transactions.len();
    let time_before = ex.time;
    let (currency, amount) = ex.finalize_transaction("0000000000000000").unwrap();
    assert_eq!(currency, "xxx");
    assert_eq!(amount, 0);
    assert_eq!(ex.pending_transactions.len(), pending_before);
    assert!(!ex.pending_transactions[0].1.complete);
    assert_eq!(ex.time, time_before);
}

#[test]
fn refinalizing_a_completed_order_recomputes() {
    let mut ex = venue();
    let invoice = ex.initiate_transaction("btc", "usd", 1_000_000, "payout");
    let (_, first) = ex.finalize_transaction(&invoice.address).unwrap();
    assert_eq!(first, 9_000_000_000);
    ex.tick();
    let (_, second) = ex.finalize_transaction(&invoice.address).unwrap();
    assert_eq!(second, 9_100_000_000);
}

#[test]
fn settlement_without_a_rate_is_reported() {
    let mut ex = venue();
    let invoice = ex.initiate_transaction("btc", "xyz", 1_000_000, "payout");
    assert_eq!(
        ex.finalize_transaction(&invoice.address).unwrap_err(),
        FinalizeError::RateUnavailable
    );
    let invoice = ex.initiate_transaction("xyz", "usd", 1_000_000, "payout");
    assert_eq!(
        ex.finalize_transaction(&invoice.address).unwrap_err(),
        FinalizeError::RateUnavailable
    );
}

#[test]
fn a_self_conversion_order_cannot_be_priced() {
    // No table keys its own base currency, so converting a currency into
    // itself is never quotable and settlement reports the missing rate.
    let mut ex = venue();
    let invoice = ex.initiate_transaction("btc", "btc", 1_000_000, "payout");
    assert_eq!(
        ex.finalize_transaction(&invoice.address).unwrap_err(),
        FinalizeError::RateUnavailable
    );
}

#[test]
fn rate_updates_cover_every_known_currency() {
    let mut ex = venue();
    ex.tick();
    let updates = ex.rates_for_all_currencies("venue-1");
    assert_eq!(updates.len(), 2);
    for update in &updates {
        assert_eq!(update.exchange, "venue-1");
        assert_eq!(update.rate.timestamp, 1000);
        let expected = if update.currency == "btc" {
            9_100_000_000
        } else {
            300_000_000
        };
        assert_eq!(update.rate.get("usd"), Some(expected));
    }
}

#[test]
fn rate_updates_fall_back_to_empty_tables_past_the_range() {
    let mut ex = venue();
    ex.tick();
    ex.tick();
    let updates = ex.rates_for_all_currencies("venue-1");
    assert_eq!(updates.len(), 2);
    for update in &updates {
        assert!(update.rate.values.is_empty());
        assert_eq!(update.rate.timestamp, 2000);
    }
}
