//! A verified tabular data pipeline: CSV ingestion with bounded retry, a
//! clean/normalize/validate transform pipeline over a column-oriented store,
//! and the decomposition/aggregation logic of a non-atomic bulk writer.
//!
//! Cell values are exact fixed-point numbers: an `i64` count of millionths of
//! a unit (`store::UNIT`), so that every statistic the pipeline computes is
//! integer arithmetic with a precise contract.

pub mod ingestion;
pub mod stats;
pub mod pipeline;
pub mod storage;
pub mod store;
pub mod transformation;
