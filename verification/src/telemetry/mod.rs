//! Telemetry: constant-time measurement on the hot path, summarized elsewhere.
//!
//! - [`LatencyHistogram`]: records durations in nanoseconds in constant time, and reports
//!   percentiles with a bounded relative error.
//! - [`exposition`]: metrics in the Prometheus text format.
//! - [`server`]: what the metrics endpoint reads and answers.
//!
//! Recording is the only operation meant for the hot path. Summaries scan the whole histogram
//! and belong on a periodic, off-path schedule.

pub mod buckets;
pub mod exposition;
pub mod exposition_laws;
pub mod histogram;
pub mod histogram_laws;
pub mod server;

pub use histogram::{LatencyHistogram, LatencySummary};
