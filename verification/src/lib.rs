//! Progress monitor for long-running numerical simulation cases.
//!
//! Each case writes an append-only log; the library extracts the most recent
//! `TimeStep N: Time X` observation from such a log, maintains a running
//! average of wall-clock seconds per simulation step, and derives from it an
//! estimated time of completion. All fractional quantities are held as exact
//! scaled integers: wall-clock samples in milliseconds, simulated time and
//! displayed averages in hundredths of a unit.

use vstd::prelude::*;

mod average;
mod case;
mod observation;
mod render;

pub use case::Case;

pub use average::ElapsedPerStep;
pub use average::lemma_folded_is_arithmetic_mean;
pub use average::lemma_mean_order_independent;
pub use observation::Observation;
pub use observation::parse_observation;
pub use observation::extract_last_observation;
pub use render::u64_to_string;
pub use render::centi_to_string;
pub use render::pad_left_string;
pub use render::pad_right_string;

verus! {

/// Seconds between two status polls of a case's log.
pub const UPDATE_TIME: usize = 180;

/// Simulation sampling rate in Hz: converts duration units into a step count.
pub const RATE: usize = 20;

/// Failure of one progress update of a case.
#[derive(Debug, Clone, Copy, PartialEq, Eq, Structural)]
pub enum CaseError {
    /// The external read of the log could not be run.
    Command,
    /// The log bytes are not valid UTF-8.
    UTF8,
    /// The simulated-time field cannot be read as a number.
    ParseFloat,
    /// The step field cannot be read as a number, or the step went backwards.
    ParseInt,
    /// No line of the log matches the observation pattern.
    Regex,
    /// The log could not be read or filtered.
    Grep,
}

impl CaseError {
    /// A short description of the failure.
    pub fn message(&self) -> (r: &'static str)
        ensures
            r@ == match self {
                CaseError::Command => "failed to call shell"@,
                CaseError::UTF8 => "failed to convert to UTF8"@,
                CaseError::ParseFloat => "failed to parse String"@,
                CaseError::ParseInt => "failed to parse String"@,
                CaseError::Regex => "No TimeStep/Time match found"@,
                CaseError::Grep => "grep TimeStep failed"@,
            },
    {
        match self {
            CaseError::Command => "failed to call shell",
            CaseError::UTF8 => "failed to convert to UTF8",
            CaseError::ParseFloat => "failed to parse String",
            CaseError::ParseInt => "failed to parse String",
            CaseError::Regex => "No TimeStep/Time match found",
            CaseError::Grep => "grep TimeStep failed",
        }
    }
}

/// Outcome of an operation on a case.
pub type Result<T> = core::result::Result<T, CaseError>;

} // verus!
