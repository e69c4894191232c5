//! A simulated currency-exchange venue.
//!
//! The library replays historical exchange-rate snapshots along a logical
//! clock (one snapshot per *tick*), answers point-in-time and historical
//! rate queries, and tracks a deposit-triggered conversion flow: a
//! conversion request yields an invoice with a generated payment address,
//! and a later payment notification for that address settles the
//! conversion at the rates of the tick current at settlement time.
//!
//! Rates and amounts are fixed-point integers in micro-units: a stored
//! value of 1_000_000 stands for 1.0. Snapshot sources, wire transport
//! and the wall clock live outside the library; it consumes snapshot
//! texts, message values and millisecond timestamps as plain data.

pub mod com;
pub mod text;
pub mod exchange;
pub mod rates;
