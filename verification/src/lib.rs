//! A time-keyed price store with a small query language.
//!
//! Measurements are keyed by the canonical hour-granularity timestamp string
//! `YYYY-MM-DD Hhh`. The library holds the codec for that key format, a
//! parser and evaluator for conjunctive field comparisons over the decomposed
//! timestamp and the stored value, the store itself, and the snapshot codec
//! that renders the store to a JSON document and back.

pub mod price;
pub mod query;
pub mod snapshot;
pub mod store;
pub mod text;
pub mod timestamp;
