//! Seasonal analysis of daily sunrise, sunset and solar-noon times: time
//! values in fixed point, per-day normalization, extrema tracking and a
//! sinusoidal fit of each series.

pub mod error;
pub mod time_value;
pub mod day;
pub mod fit;
pub mod report;
