//! Checks a list of candidate identifiers (usernames) for availability
//! against a remote lookup service, respecting the service's concurrency
//! and rate-limit constraints.
//!
//! The crate holds the logic of the checker: identifier validation and
//! normalization, batching, response classification, the per-batch retry
//! state machine, the admission-controlled dispatcher, the rate-limit
//! notice coordinator, and the aggregation of outcomes. Network transport
//! and console output live outside the crate and hand plain values in
//! and out.

pub mod chars;
pub mod cli;
pub mod dispatcher;
pub mod outcome;
pub mod ratelimit;
pub mod worker;
pub mod utils;

use vstd::prelude::*;

verus! {

} // verus!
