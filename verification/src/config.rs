//! Run configuration consumed by the pipeline.
//!
//! Reading a configuration file is a collaborator's job; these types only
//! carry the settled values. The fence multiplier arrives as an exact
//! rational so the anomaly stage can compare without rounding.

use vstd::prelude::*;

use crate::ratio::Ratio;

verus! {

/// Collaborator-facing settings: where the feed comes from and where the
/// aggregated table is written.
#[derive(Debug, Clone, PartialEq, Eq)]
pub struct AppSettings {
    pub data_url: String,
    pub output_file: String,
}

/// Settings of the anomaly fence itself.
#[derive(Debug, Clone, Copy, PartialEq, Eq, Structural)]
pub struct AnomalyDetectionSettings {
    /// The interquartile-range multiplier `k` of the fence, typically 3/2.
    pub iqr_multiplier: Ratio,
}

/// The full run configuration.
#[derive(Debug, Clone, PartialEq, Eq)]
pub struct Settings {
    pub app: AppSettings,
    pub anomaly_detection: AnomalyDetectionSettings,
}

} // verus!
