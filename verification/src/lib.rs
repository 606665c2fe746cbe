//! A statistical-quality and deduplication engine for time-stamped numeric
//! readings grouped by data provider and metric key.
//!
//! Values are carried as fixed-point integers (the caller picks the scale),
//! so every dispersion statistic and every duplicate-threshold comparison is
//! exact: the test `value_delta < stddev / 2` is decided by comparing
//! `4 * delta^2 * n^2` against `n * sum_sq - sum^2`, the variance numerator,
//! with no rounding anywhere.

use vstd::prelude::*;

mod cleaner;
mod grouping;
mod laws;
mod model;
mod pipeline;
mod stats;

pub use cleaner::CleanOutcome;
pub use cleaner::clean_series;
pub use cleaner::is_duplicate;
pub use grouping::RawReading;
pub use grouping::group_readings;
pub use model::Reading;
pub use pipeline::Batch;
pub use pipeline::clean_batch;
pub use pipeline::clean_provider;
pub use pipeline::GapStatistics;
pub use pipeline::MetricSeries;
pub use pipeline::ProviderGaps;
pub use pipeline::ProviderGroup;
pub use stats::AggregateError;
pub use stats::DispersionSummary;

verus! {

/// Largest magnitude a reading value may carry (2^40). Bounding values lets
/// every sum, sum of squares and squared threshold fit comfortably in `i128`.
pub const MAX_ABS_VALUE: i64 = 0x100_0000_0000;

/// Largest number of readings in one series (2^20), for the same reason.
pub const MAX_SERIES_LEN: usize = 0x10_0000;

} // verus!
