use simex::rates::{find_or_insert, parse_snapshot, RateTable, SnapshotError};

fn table_of<'a>(
    tables: &'a [(String, RateTable)],
    base: &str,
) -> Option<&'a RateTable> {
    tables.iter().find(|e| e.0 == base).map(|e| &e.1)
}

#[test]
fn snapshot_accumulates_records_per_base_currency() {
    let text = r#"[
        {"pair": "btc_usd", "rate": "9000"},
        {"pair": "btc_eur", "rate": "8000.5"},
        {"pair": "eth_usd", "rate": "300"}
    ]"#;
    let tables = parse_snapshot(text, 7000).unwrap();
    assert_eq!(tables.len(), 2);
    let btc = table_of(&tables, "btc").unwrap();
    assert_eq!(btc.get("usd"), Some(9_000_000_000));
    assert_eq!(btc.get("eur"), Some(8_000_500_000));
    assert_eq!(btc.timestamp, 7000);
    let eth = table_of(&tables, "eth").unwrap();
    assert_eq!(eth.get("usd"), Some(300_000_000));
}

#[test]
fn snapshot_last_write_wins_on_duplicate_pair() {
    let text = r#"[
        {"pair": "btc_usd", "rate": "9000"},
        {"pair": "btc_usd", "rate": "9100"}
    ]"#;
    let tables = parse_snapshot(text, 0).unwrap();
    assert_eq!(table_of(&tables, "btc").unwrap().get("usd"), Some(9_100_000_000));
}

#[test]
fn snapshot_normalizes_case() {
    let text = r#"[{"pair": "BTC_USD", "rate": "9000"}]"#;
    let tables = parse_snapshot(text, 0).unwrap();
    // The stored base and target codes are the lowercase forms.
    assert!(table_of(&tables, "BTC").is_none());
    let btc = table_of(&tables, "btc").unwrap();
    assert_eq!(btc.get("USD"), None);
    assert_eq!(btc.get("usd"), Some(9_000_000_000));
}

#[test]
fn snapshot_skips_codes_of_wrong_length() {
    let text = r#"[
        {"pair": "ab_usd", "rate": "1"},
        {"pair": "btc_dollars", "rate": "2"},
        {"pair": "btc_usd", "rate": "3"}
    ]"#;
    let tables = parse_snapshot(text, 0).unwrap();
    assert_eq!(tables.len(), 1);
    assert_eq!(table_of(&tables, "btc").unwrap().get("usd"), Some(3_000_000));
}

#[test]
fn snapshot_skips_self_pairs() {
    // A table never keys its own base currency: a self-pair record is
    // skipped like a wrong-length code, whatever its case.
    let text = r#"[
        {"pair": "btc_btc", "rate": "1"},
        {"pair": "BTC_btc", "rate": "2"},
        {"pair": "btc_usd", "rate": "3"}
    ]"#;
    let tables = parse_snapshot(text, 0).unwrap();
    assert_eq!(tables.len(), 1);
    let btc = table_of(&tables, "btc").unwrap();
    assert_eq!(btc.get("btc"), None);
    assert_eq!(btc.get("usd"), Some(3_000_000));

    let only_self = parse_snapshot(r#"[{"pair": "eth_eth", "rate": "1"}]"#, 0).unwrap();
    assert!(only_self.is_empty());
}

#[test]
fn snapshot_rejects_pair_without_underscore() {
    let text = r#"[{"pair": "btcusd", "rate": "1"}]"#;
    assert_eq!(parse_snapshot(text, 0).unwrap_err(), SnapshotError::BadPair);
}

#[test]
fn snapshot_rejects_unparsable_rate() {
    let text = r#"[{"pair": "btc_usd", "rate": "fast"}]"#;
    assert_eq!(parse_snapshot(text, 0).unwrap_err(), SnapshotError::BadRate);
}

#[test]
fn snapshot_rejects_text_that_is_not_a_record_list() {
    assert_eq!(
        parse_snapshot("no json here", 0).unwrap_err(),
        SnapshotError::Undecodable
    );
    assert_eq!(
        parse_snapshot(r#"[{"pair": "btc_usd"}]"#, 0).unwrap_err(),
        SnapshotError::Undecodable
    );
    assert_eq!(
        parse_snapshot(r#"[{"pair": "btc_usd", "rate": 9000}]"#, 0).unwrap_err(),
        SnapshotError::Undecodable
    );
}

#[test]
fn find_or_insert_creates_then_reuses() {
    let mut map: Vec<(String, RateTable)> = Vec::new();
    {
        let entry = find_or_insert(&mut map, "btc".to_string());
        entry.set("usd".to_string(), 5);
    }
    assert_eq!(map.len(), 1);
    {
        let entry = find_or_insert(&mut map, "btc".to_string());
        assert_eq!(entry.get("usd"), Some(5));
        entry.set("eur".to_string(), 7);
    }
    assert_eq!(map.len(), 1);
    assert_eq!(map[0].1.get("usd"), Some(5));
    assert_eq!(map[0].1.get("eur"), Some(7));
}
