//! Batch analytics for a time-stamped numeric measurement feed.
//!
//! The pipeline reduces raw delimited rows to one average value per calendar
//! day and flags days whose average falls outside an interquartile fence.
//! Daily averages are carried as exact rationals (sum of sample values over
//! sample count), so every stage's result is pinned down precisely; callers
//! that need a floating-point rendering divide at the edge.

pub mod anomaly_detector;
pub mod config;
pub mod data_processor;
pub mod errors;
pub mod ratio;
