//! Performance-telemetry normalization and run comparison.
//!
//! Metric values are fixed-point decimals counted in thousandths
//! (`4.27` is held as `4270`); timestamps are milliseconds since the Unix epoch.
use vstd::prelude::*;

pub mod text;
pub mod decimal;
pub mod series;
pub mod run;
pub mod frame;
pub mod gpu;
pub mod device;

verus! {

/// One metric of a run compared with the previous run and with all runs.
#[derive(Clone, Debug)]
pub struct MetricSummary {
    pub name: String,
    /// This run's average, in thousandths.
    pub value: i64,
    /// The previous run's average, in thousandths; 0 where there is none.
    pub last_value: i64,
    /// The average over every recorded sample of the metric, in thousandths.
    pub average_value: i64,
}

/// The comparison view of one run.
#[derive(Clone, Debug)]
pub struct ProfileRun {
    pub description: String,
    /// Start of the run, in milliseconds since the Unix epoch.
    pub timestamp: u64,
    pub result: bool,
    pub metrics: Vec<MetricSummary>,
}

/// The summary of one recorded run.
#[derive(Clone, Debug)]
pub struct ProfileSummary {
    pub description: String,
    /// Start of the run, in milliseconds since the Unix epoch.
    pub timestamp: u64,
    pub result: bool,
    pub id: usize,
}

} // verus!
