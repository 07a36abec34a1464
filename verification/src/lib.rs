//! Verified core of a daily mortgage-rate tracker.
//!
//! The library keeps an append-only history of rate records, deduplicated by
//! calendar date at batch granularity, derives per-term per-loan-type series
//! from the history, computes shared axis bounds for charting, and reads and
//! writes the history in a fixed textual storage format.
//!
//! Rate-like quantities (rate, APR, discount points) are held as integers in
//! thousandths of a percent, so that all arithmetic and all contracts are
//! exact.

pub mod record;
pub mod store;
pub mod series;
pub mod bounds;
pub mod codec;
