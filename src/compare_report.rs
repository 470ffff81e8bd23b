use vstd::prelude::*;
use crate::matching::BinaryMatch;

verus! {

/// Length of a computation, as whole seconds and nanoseconds.
#[derive(Debug, Clone, Copy, PartialEq, Eq)]
pub struct ComputeTime {
    pub secs: u64,
    /// Below one second.
    pub nanos: u32,
}

/// Result of comparing a sample binary with reference binaries.
#[derive(Debug, Clone)]
pub struct CompareReport {
    /// Name of the sample binary.
    pub sample_name: String,
    /// One entry per reference binary.
    pub matches: Vec<BinaryMatch>,
    /// How long the comparison took.
    pub compute_time: ComputeTime,
}

impl CompareReport {
    /// Creates a report.
    pub fn new(sample_name: &str, matches: Vec<BinaryMatch>, compute_time: ComputeTime) -> (r: Self)
        ensures
            r.sample_name@ == sample_name@,
            r.matches@ == matches@,
            r.compute_time == compute_time,
    {
        CompareReport { sample_name: sample_name.to_string(), matches, compute_time }
    }

    /// Name of the sample binary.
    pub fn sample_name(&self) -> (r: &String)
        ensures
            r == &self.sample_name,
    {
        &self.sample_name
    }

    /// One entry per reference binary.
    pub fn matches(&self) -> (r: &Vec<BinaryMatch>)
        ensures
            r == &self.matches,
    {
        &self.matches
    }

    /// How long the comparison took.
    pub fn compute_time(&self) -> (r: &ComputeTime)
        ensures
            r == &self.compute_time,
    {
        &self.compute_time
    }
}

} // verus!
