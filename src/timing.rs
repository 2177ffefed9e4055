//! A stopwatch for interactive runs: it remembers when it was last started.
use vstd::prelude::*;
use std::time::SystemTime;

verus! {

#[verifier::external_type_specification]
#[verifier::external_body]
pub struct ExSystemTime(SystemTime);

/// Relies on std's `SystemTime::now`: it returns the current system time, of
/// which nothing is known here.
pub assume_specification[ SystemTime::now ]() -> SystemTime;

/// Holds the moment of the last checkpoint.
pub struct TimingDebugger {
    pub start_time: SystemTime,
}

impl TimingDebugger {
    /// A stopwatch started now.
    pub fn new() -> (r: TimingDebugger) {
        TimingDebugger { start_time: SystemTime::now() }
    }
}

} // verus!
