//! Field monitor: reachability probes of an allowlist from the operator's
//! own servers, a read-only security audit, a cross-check against a
//! reference measurement API, and the log formats, aggregation and reports
//! built on them.

pub mod aggregate;
pub mod audit;
pub mod corroborate;
pub mod fleet;
pub mod logfmt;
pub mod model;
pub mod probe;
pub mod report;
pub mod runner;
pub mod ssh;
pub mod text;
