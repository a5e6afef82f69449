//! Evidence that a request asked a search to stop.
use vstd::prelude::*;

use crate::solver::{SolveRequest, MAX_ELAPSED_NANOS};

verus! {

/// Evidence that a request asked its search to stop: it was cancelled or its
/// deadline passed. Only the request's own checks below issue one, so a
/// search that gives up early without being asked has none to show.
#[derive(Clone, Debug, Eq, PartialEq)]
pub struct StopSignal {
    issued: bool,
}

impl SolveRequest {
    /// A stop signal exactly when the request should stop (cancelled, or
    /// out of time); a zero budget always stops.
    pub fn stop_signal(&self) -> (r: Option<StopSignal>)
        ensures
            self.time_limit_spec() == 0 ==> r is Some,
    {
        if self.should_stop() {
            Some(StopSignal { issued: true })
        } else {
            None
        }
    }

    /// A stop signal exactly when the deadline has passed; a zero budget
    /// has always passed and a budget longer than any duration never does.
    pub fn deadline_signal(&self) -> (r: Option<StopSignal>)
        ensures
            self.time_limit_spec() == 0 ==> r is Some,
            self.time_limit_spec() > MAX_ELAPSED_NANOS ==> r is None,
    {
        if self.deadline().is_expired() {
            Some(StopSignal { issued: true })
        } else {
            None
        }
    }
}

} // verus!
