//! Decisions of the communication loop: deadline arithmetic for the
//! bounded readiness wait, and the dispatch of inbound messages to the
//! exchange state engine.

use vstd::prelude::*;

verus! {

use crate::exchange::Exchange;
use crate::exchange::ExchangeView;
use crate::exchange::FinalizeError;
use crate::exchange::Invoice;
use crate::exchange::OrderView;
use crate::exchange::is_address_char;
use crate::exchange::rates_lookup;
use crate::exchange::settlement_of;
use crate::exchange::snapshot_rates_at;
use crate::exchange::spec_initiate;
use crate::rates::RateTable;

/// A market query as decoded from the request-reply endpoint.
#[derive(Debug)]
pub enum ExchangeQuery {
    /// Rate history over the given age in milliseconds.
    History(u64),
    /// Status of a transaction: carried on the wire but not served.
    Status(String),
    /// Convert the given amount of micro-units of the first currency into
    /// the second.
    Exchange(String, String, u64),
}

/// A request as decoded from the request-reply endpoint.
#[derive(Debug)]
pub struct ExchangeRequest {
    pub query: ExchangeQuery,
    pub currency: String,
    pub exchange: String,
}

/// One inbound message: a market request on the request-reply endpoint or
/// a payment notification (a bare address) on the side channel.
#[derive(Debug)]
pub enum Incoming {
    Request(ExchangeRequest),
    Payment(String),
}

/// The reply owed for one inbound message.
#[derive(Debug)]
pub enum Outgoing {
    /// Tables answering a history request, timestamps ascending.
    History(Vec<RateTable>),
    /// The invoice answering a conversion request.
    Bill(Invoice),
    /// The settled amount in micro-units confirming a payment.
    Confirmation(u128),
}

/// Why an inbound message got no reply.
#[derive(Debug, Clone, Copy, PartialEq, Eq, Structural)]
pub enum ServiceError {
    /// The request kind is carried on the wire but not served.
    Unsupported,
    /// The history request reaches back before tick zero, or the clock
    /// has outrun the representable millisecond range.
    HistoryUnavailable,
    /// Settlement failed on the notified payment.
    Finalize(FinalizeError),
}

/// Milliseconds left until `deadline_ms`, floored at zero: a deadline
/// already past yields a zero-length, non-blocking wait.
pub fn remaining_ms(now_ms: u64, deadline_ms: u64) -> (r: u64)
    ensures
        r == (if now_ms < deadline_ms {
            deadline_ms - now_ms
        } else {
            0
        }),
{
    if now_ms < deadline_ms {
        deadline_ms - now_ms
    } else {
        0
    }
}

/// The two inbound endpoints the service phase multiplexes.
#[derive(Debug, Clone, Copy, PartialEq, Eq, Structural)]
pub enum Endpoint {
    /// Market queries and conversion requests.
    RequestReply,
    /// Payment notifications.
    SideChannel,
}

/// Which endpoint the service phase reads after a readiness wait: the
/// request-reply endpoint takes precedence when both are ready, and
/// nothing is read when neither is — the phase then ends for this tick.
pub fn select_endpoint(request_ready: bool, side_ready: bool) -> (r: Option<Endpoint>)
    ensures
        r == (if request_ready {
            Some(Endpoint::RequestReply)
        } else if side_ready {
            Some(Endpoint::SideChannel)
        } else {
            None::<Endpoint>
        }),
{
    if request_ready {
        Some(Endpoint::RequestReply)
    } else if side_ready {
        Some(Endpoint::SideChannel)
    } else {
        None
    }
}

/// Dispatch one inbound message to the exchange and decide the reply: the
/// one decision point of the service phase. A history request is answered
/// from the stored snapshots, a conversion request with an invoice, a
/// payment notification with the settled amount; a status request and a
/// history reaching before tick zero are refused without touching the
/// exchange. An order opened by a conversion request carries an empty
/// destination: the wire format has no field for one.
pub fn handle_incoming(ex: &mut Exchange, msg: Incoming) -> (r: Result<Outgoing, ServiceError>)
    requires
        old(ex).wf(),
    ensures
        final(ex).wf(),
        match msg {
            Incoming::Request(req) => match req.query {
                ExchangeQuery::History(age) => {
                    if age / 1000 <= old(ex)@.time && old(ex)@.time * 1000 <= u64::MAX {
                        match r {
                            Ok(Outgoing::History(tables)) => {
                                &&& final(ex)@ == old(ex)@
                                &&& tables@.len() == age / 1000
                                &&& forall|k: int|
                                    0 <= k < tables@.len() ==> {
                                        &&& (#[trigger] tables@[k]).wf()
                                        &&& tables@[k]@.timestamp == (old(ex)@.time - age / 1000
                                            + k) * 1000
                                        &&& tables@[k]@.values == (match rates_lookup(
                                            old(ex)@.snapshots,
                                            req.currency@,
                                            old(ex)@.time - age / 1000 + k,
                                        ) {
                                            Some(m) => m,
                                            None => Map::<Seq<char>, u64>::empty(),
                                        })
                                    }
                            },
                            _ => false,
                        }
                    } else {
                        r == Result::<Outgoing, ServiceError>::Err(
                            ServiceError::HistoryUnavailable,
                        ) && final(ex)@ == old(ex)@
                    }
                },
                ExchangeQuery::Status(_) => r == Result::<Outgoing, ServiceError>::Err(
                    ServiceError::Unsupported,
                ) && final(ex)@ == old(ex)@,
                ExchangeQuery::Exchange(from, to, amount) => match r {
                    Ok(Outgoing::Bill(inv)) => {
                        &&& inv.currency@ == from@
                        &&& inv.amount == amount
                        &&& inv.address@.len() == 16
                        &&& forall|i: int|
                            0 <= i < inv.address@.len() ==> is_address_char(
                                #[trigger] inv.address@[i],
                            )
                        &&& final(ex)@ == spec_initiate(
                            old(ex)@,
                            inv.address@,
                            OrderView {
                                from: from@,
                                to: to@,
                                amount,
                                destination: Seq::empty(),
                            },
                        )
                    },
                    _ => false,
                },
            },
            Incoming::Payment(address) => {
                let l = old(ex)@.ledger;
                if !l.contains_key(address@) {
                    &&& final(ex)@ == old(ex)@
                    &&& r == Result::<Outgoing, ServiceError>::Ok(Outgoing::Confirmation(0))
                } else {
                    match settlement_of(
                        snapshot_rates_at(old(ex)@.snapshots, old(ex)@.time),
                        l[address@].order,
                    ) {
                        Some(p) => {
                            &&& (match r {
                                Ok(Outgoing::Confirmation(amt)) => amt == p.1,
                                _ => false,
                            })
                            &&& final(ex)@ == ExchangeView {
                                ledger: l.insert(
                                    address@,
                                    crate::exchange::TransactionView {
                                        order: l[address@].order,
                                        complete: true,
                                    },
                                ),
                                ..old(ex)@
                            }
                        },
                        None => {
                            &&& r == Result::<Outgoing, ServiceError>::Err(
                                ServiceError::Finalize(FinalizeError::RateUnavailable),
                            )
                            &&& final(ex)@ == old(ex)@
                        },
                    }
                }
            },
        },
{
    match msg {
        Incoming::Request(req) => match req.query {
            ExchangeQuery::History(age) => {
                if age / 1000 <= ex.time as u64 && ex.time as u64 <= u64::MAX / 1000 {
                    Ok(Outgoing::History(ex.query_history(req.currency.as_str(), age)))
                } else {
                    Err(ServiceError::HistoryUnavailable)
                }
            },
            ExchangeQuery::Status(_) => Err(ServiceError::Unsupported),
            ExchangeQuery::Exchange(from, to, amount) => {
                proof {
                    reveal_strlit("");
                    assert(""@ =~= Seq::<char>::empty());
                }
                Ok(Outgoing::Bill(ex.initiate_transaction(from.as_str(), to.as_str(), amount, "")))
            },
        },
        Incoming::Payment(address) => match ex.finalize_transaction(address.as_str()) {
            Ok(p) => Ok(Outgoing::Confirmation(p.1)),
            Err(e) => Err(ServiceError::Finalize(e)),
        },
    }
}

} // verus!
