//! Streaming, memory-bounded mean / standard-deviation estimation over a
//! sliding window of the most recent samples, segmented by a recurring
//! time-of-day bucket, with a standardized deviation ("z-score") for each new
//! observation relative to its own bucket's history.
//!
//! Samples are integers (callers pick a fixed-point scale for fractional
//! data); all statistics are kept exactly, as integer accumulators, and
//! results are stated exactly in the contracts: means as exact ratios,
//! standard deviations and z-scores as scaled integers defined by a floor
//! square root.

pub mod arith;
pub mod estimator;
pub mod registry;
