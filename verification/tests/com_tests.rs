use simex::com::{
    handle_incoming, remaining_ms, select_endpoint, Endpoint, ExchangeQuery, ExchangeRequest,
    Incoming, Outgoing, ServiceError,
};
use simex::exchange::Exchange;

const TICK0: &str = r#"[{"pair": "btc_usd", "rate": "9000"}]"#;
const TICK1: &str = r#"[{"pair": "btc_usd", "rate": "9100"}]"#;

fn venue() -> Exchange {
    let texts = vec![TICK0.to_string(), TICK1.to_string()];
    Exchange::new(&texts).unwrap()
}

fn request(query: ExchangeQuery, currency: &str) -> Incoming {
    Incoming::Request(ExchangeRequest {
        query,
        currency: currency.to_string(),
        exchange: "venue-1".to_string(),
    })
}

#[test]
fn wait_is_the_time_left_until_the_deadline() {
    assert_eq!(remaining_ms(400, 1000), 600);
    assert_eq!(remaining_ms(0, 1), 1);
}

#[test]
fn wait_never_reaches_past_a_spent_deadline() {
    // A deadline already reached or passed yields a non-blocking poll.
    assert_eq!(remaining_ms(1000, 1000), 0);
    assert_eq!(remaining_ms(2500, 1000), 0);
    assert_eq!(remaining_ms(u64::MAX, 0), 0);
}

#[test]
fn requests_take_precedence_over_payments() {
    assert_eq!(select_endpoint(true, true), Some(Endpoint::RequestReply));
    assert_eq!(select_endpoint(true, false), Some(Endpoint::RequestReply));
    assert_eq!(select_endpoint(false, true), Some(Endpoint::SideChannel));
    assert_eq!(select_endpoint(false, false), None);
}

#[test]
fn history_request_returns_the_recent_tables() {
    let mut ex = venue();
    ex.tick();
    let reply = handle_incoming(&mut ex, request(ExchangeQuery::History(1000), "btc"));
    match reply {
        Ok(Outgoing::History(tables)) => {
            assert_eq!(tables.len(), 1);
            assert_eq!(tables[0].timestamp, 0);
            assert_eq!(tables[0].get("usd"), Some(9_000_000_000));
        }
        other => panic!("unexpected reply: {:?}", other),
    }
}

#[test]
fn history_reaching_before_tick_zero_is_refused() {
    let mut ex = venue();
    let reply = handle_incoming(&mut ex, request(ExchangeQuery::History(1000), "btc"));
    assert_eq!(reply.unwrap_err(), ServiceError::HistoryUnavailable);
}

#[test]
fn status_request_is_unsupported() {
    let mut ex = venue();
    let reply = handle_incoming(
        &mut ex,
        request(ExchangeQuery::Status("tx-1".to_string()), "btc"),
    );
    assert_eq!(reply.unwrap_err(), ServiceError::Unsupported);
}

#[test]
fn exchange_request_is_answered_with_an_invoice() {
    let mut ex = venue();
    let msg = request(
        ExchangeQuery::Exchange("btc".to_string(), "usd".to_string(), 3_000_000),
        "btc",
    );
    match handle_incoming(&mut ex, msg) {
        Ok(Outgoing::Bill(invoice)) => {
            assert_eq!(invoice.currency, "btc");
            assert_eq!(invoice.amount, 3_000_000);
            assert_eq!(invoice.address.len(), 16);
            assert_eq!(ex.pending_transactions.len(), 1);
        }
        other => panic!("unexpected reply: {:?}", other),
    }
}

#[test]
fn payment_for_an_open_order_is_confirmed_with_the_settled_amount() {
    let mut ex = venue();
    let msg = request(
        ExchangeQuery::Exchange("btc".to_string(), "usd".to_string(), 1_000_000),
        "btc",
    );
    let invoice = match handle_incoming(&mut ex, msg) {
        Ok(Outgoing::Bill(invoice)) => invoice,
        other => panic!("unexpected reply: {:?}", other),
    };
    ex.tick();
    match handle_incoming(&mut ex, Incoming::Payment(invoice.address)) {
        Ok(Outgoing::Confirmation(amount)) => assert_eq!(amount, 9_100_000_000),
        other => panic!("unexpected reply: {:?}", other),
    }
}

#[test]
fn payment_for_an_unpriceable_order_reports_the_failure() {
    let mut ex = venue();
    let invoice = ex.initiate_transaction("btc", "xyz", 1_000_000, "payout");
    let reply = handle_incoming(&mut ex, Incoming::Payment(invoice.address));
    assert_eq!(
        reply.unwrap_err(),
        ServiceError::Finalize(simex::exchange::FinalizeError::RateUnavailable)
    );
}

#[test]
fn stray_payment_is_confirmed_with_zero() {
    let mut ex = venue();
    let reply = handle_incoming(&mut ex, Incoming::Payment("0000000000000000".to_string()));
    match reply {
        Ok(Outgoing::Confirmation(amount)) => assert_eq!(amount, 0),
        other => panic!("unexpected reply: {:?}", other),
    }
    assert_eq!(ex.pending_transactions.len(), 0);
}
