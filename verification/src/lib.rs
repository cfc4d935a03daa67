//! Verified core of a Redis-backed background job queue: metric keys and
//! aggregation, queue statistics bookkeeping, scheduling decisions and the
//! small pieces of presentation logic used by the web dashboard.

pub mod batcher;
pub mod builder;
pub mod catalog;
pub mod housekeeping;
pub mod metrics;
pub mod processing;
pub mod queue_stats;
pub mod registry;
pub mod results;
pub mod stats;
pub mod storage;
pub mod text;
pub mod tree;
pub mod web;
pub mod worker;

pub use metrics::MetricIdentity;
pub use text::{chars_of, decimal_chars};
