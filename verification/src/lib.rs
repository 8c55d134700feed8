//! Threshold data aggregation over a large prime field.
//!
//! Clients secret-share a measurement into `(x, y)` shares of random
//! polynomials and tag each share so that reports of the same measurement in
//! the same epoch collide on one reconstruction group. An aggregation server
//! recovers a secret only when at least `threshold` distinct shares of it
//! arrived; smaller groups are dropped unread.

pub mod agg;
pub mod client;
pub mod errors;
pub mod field;
pub mod oprf;
pub mod share;
pub mod sharks;

pub use agg::{AggregationResult, AggregationServer, RecoveryFailure};
pub use client::{Client, Triple};
pub use errors::Error;
pub use field::FieldElem;
pub use field::FIELD_ELEMENT_LEN;
pub use share::{Evaluator, Share};
pub use oprf::RandomnessServer;
pub use sharks::Sharks;
