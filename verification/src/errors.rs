//! Failure taxonomy of the pipeline.
//!
//! Row-level defects (a bad timestamp, an absent value) are never reported
//! through this type: the cleaning stage absorbs them as drops. `AppError`
//! covers the fatal conditions that abort a run.

use vstd::prelude::*;

verus! {

/// A fatal pipeline failure. Each variant carries a human-readable message.
#[derive(Debug, Clone, PartialEq, Eq)]
pub enum AppError {
    /// The feed could not be retrieved over the network.
    HttpError(String),
    /// The delimited table was structurally malformed.
    CsvError(String),
    /// A file could not be read or written.
    IoError(String),
    /// A date could not be parsed where one was required.
    DateParseError(String),
    /// The configuration was missing or invalid.
    ConfigError(String),
    /// A data-processing failure not otherwise classified.
    DataProcessingError(String),
}

impl AppError {
    /// The message carried by this error, whatever the variant.
    pub fn message(&self) -> (r: String)
        ensures
            r@ == self.spec_message(),
    {
        match self {
            AppError::HttpError(m) => m.clone(),
            AppError::CsvError(m) => m.clone(),
            AppError::IoError(m) => m.clone(),
            AppError::DateParseError(m) => m.clone(),
            AppError::ConfigError(m) => m.clone(),
            AppError::DataProcessingError(m) => m.clone(),
        }
    }

    /// The message carried by this error, as a sequence of characters.
    pub open spec fn spec_message(&self) -> Seq<char> {
        match self {
            AppError::HttpError(m) => m@,
            AppError::CsvError(m) => m@,
            AppError::IoError(m) => m@,
            AppError::DateParseError(m) => m@,
            AppError::ConfigError(m) => m@,
            AppError::DataProcessingError(m) => m@,
        }
    }
}

} // verus!
