//! An order-management core for a single restaurant.
//!
//! Clients submit short textual commands (the "toro" language) describing new
//! orders, cancellations, status checks, and a full reset.  Accepted commands
//! are durably recorded as versioned events, and the live state of every table
//! is derived by replaying those events in order.
//!
//! This crate holds the verified core: the command grammar (parser and
//! canonical printer), the event model, and the projector (replay engine,
//! domain mutation rules, and the deterministic cooking-time estimator).
//! Transport, persistence and bootstrap live outside.

pub mod chars;
pub mod config;
pub mod event;
pub mod projector;
pub mod report;
pub mod roundtrip;
pub mod restaurant;
pub mod toro;
