//! Solver contract, effort controls, metrics and outcomes.
use vstd::prelude::*;

use std::sync::atomic::AtomicBool;
use std::sync::Arc;
use std::time::Instant;

use crate::solution::Solution;
use crate::validate::PackingInstance;
use crate::solver::stop::StopSignal;

pub mod constructive;
pub mod exact;
pub mod improve;
pub mod portfolio;
pub mod stop;

verus! {

#[verifier::external_type_specification]
#[verifier::external_body]
pub struct ExInstant(Instant);

/// Read the monotonic clock (`std::time::Instant::now`). Nothing is claimed
/// of the reading: it depends on when the call is made.
#[verifier::external_body]
pub(crate) fn clock_now() -> Instant {
    Instant::now()
}

/// The most nanoseconds a `Duration` holds: `u64::MAX` whole seconds and
/// 999,999,999 nanoseconds.
pub const MAX_ELAPSED_NANOS: u128 = 18_446_744_073_709_551_615_999_999_999;

/// Nanoseconds from `earlier` to `later`, zero when `later` is not after it
/// (`Instant::saturating_duration_since`, then `Duration::as_nanos`). The
/// instants are opaque here, so the only claim is the documented range of a
/// `Duration`: whole seconds fit in a `u64` and the fraction is below one
/// second.
#[verifier::external_body]
pub(crate) fn nanos_between(later: Instant, earlier: Instant) -> (r: u128)
    ensures
        r <= MAX_ELAPSED_NANOS,
{
    later.saturating_duration_since(earlier).as_nanos()
}

/// Backend-independent solver entry point used by the portfolio.
pub trait SolverBackend {
    fn name(&self) -> &str;

    fn solve(&self, instance: &PackingInstance, request: &SolveRequest) -> Result<
        SolverOutcome,
        SolverError,
    >;
}

/// Cloneable cooperative-cancellation signal shared by a solve and its owner.
#[derive(Clone, Debug)]
pub struct CancellationToken {
    cancelled: Arc<AtomicBool>,
}

impl CancellationToken {
    pub fn new() -> (r: CancellationToken) {
        CancellationToken { cancelled: Arc::new(AtomicBool::new(false)) }
    }

    /// Raise the signal; every clone observes it.
    pub fn cancel(&self) {
        let flag: &AtomicBool = &self.cancelled;
        flag.store(true, std::sync::atomic::Ordering::Release);
    }

    /// Whether some clone of this token has been cancelled. Other threads may
    /// cancel at any time, so nothing is claimed of the answer.
    pub fn is_cancelled(&self) -> bool {
        let flag: &AtomicBool = &self.cancelled;
        flag.load(std::sync::atomic::Ordering::Acquire)
    }
}

/// Reproducible effort controls supplied to a backend. Times are in nanoseconds.
#[derive(Debug)]
pub struct SolveRequest {
    deadline: Deadline,
    seed: u64,
    threads: usize,
    cancellation: CancellationToken,
}

impl SolveRequest {
    #[verifier::type_invariant]
    spec fn threads_positive(self) -> bool {
        self.threads > 0
    }

    pub closed spec fn seed_spec(self) -> u64 {
        self.seed
    }

    pub closed spec fn threads_spec(self) -> usize {
        self.threads
    }

    pub closed spec fn time_limit_spec(self) -> u128 {
        self.deadline.time_limit
    }

    pub fn new(time_limit: u128, seed: u64, threads: usize) -> (r: SolveRequest)
        requires
            threads > 0,
        ensures
            r.seed_spec() == seed,
            r.threads_spec() == threads,
            r.time_limit_spec() == time_limit,
    {
        Self::with_cancellation(time_limit, seed, threads, CancellationToken::new())
    }

    pub fn with_cancellation(
        time_limit: u128,
        seed: u64,
        threads: usize,
        cancellation: CancellationToken,
    ) -> (r: SolveRequest)
        requires
            threads > 0,
        ensures
            r.seed_spec() == seed,
            r.threads_spec() == threads,
            r.time_limit_spec() == time_limit,
    {
        SolveRequest { deadline: Deadline::new(time_limit), seed, threads, cancellation }
    }

    pub fn deadline(&self) -> (r: &Deadline)
        ensures
            r.time_limit_spec() == self.time_limit_spec(),
    {
        &self.deadline
    }

    pub fn seed(&self) -> (r: u64)
        ensures
            r == self.seed_spec(),
    {
        self.seed
    }

    pub fn threads(&self) -> (r: usize)
        ensures
            r == self.threads_spec(),
            r > 0,
    {
        proof {
            use_type_invariant(self);
        }
        self.threads
    }

    pub fn cancellation(&self) -> CancellationToken {
        self.cancellation.clone()
    }

    /// Stop when cancelled or when the deadline has passed. Whether the
    /// token is cancelled rests on other threads and the deadline on the
    /// clock; a zero budget always stops.
    pub fn should_stop(&self) -> (r: bool)
        ensures
            self.time_limit_spec() == 0 ==> r,
    {
        self.cancellation.is_cancelled() || self.deadline.is_expired()
    }
}

impl Clone for SolveRequest {
    fn clone(&self) -> (r: SolveRequest)
        ensures
            r.seed_spec() == self.seed_spec(),
            r.threads_spec() == self.threads_spec(),
            r.time_limit_spec() == self.time_limit_spec(),
    {
        proof {
            use_type_invariant(self);
        }
        SolveRequest {
            deadline: self.deadline,
            seed: self.seed,
            threads: self.threads,
            cancellation: self.cancellation.clone(),
        }
    }
}

/// Monotonic wall-clock budget. Geometry correctness must not depend on it.
#[derive(Clone, Copy, Debug)]
pub struct Deadline {
    started_at: Instant,
    time_limit: u128,
}

impl Deadline {
    pub closed spec fn time_limit_spec(self) -> u128 {
        self.time_limit
    }

    /// A budget of `time_limit` nanoseconds starting now.
    pub fn new(time_limit: u128) -> (r: Deadline)
        ensures
            r.time_limit_spec() == time_limit,
    {
        Deadline { started_at: clock_now(), time_limit }
    }

    /// A budget of `time_limit` nanoseconds starting at `started_at`.
    pub fn starting_at(started_at: Instant, time_limit: u128) -> (r: Deadline)
        ensures
            r.time_limit_spec() == time_limit,
    {
        Deadline { started_at, time_limit }
    }

    pub fn time_limit(&self) -> (r: u128)
        ensures
            r == self.time_limit_spec(),
    {
        self.time_limit
    }

    /// Nanoseconds elapsed since the start, measured now.
    pub fn elapsed(&self) -> (r: u128)
        ensures
            r <= MAX_ELAPSED_NANOS,
    {
        self.elapsed_at(clock_now())
    }

    /// Nanoseconds left, measured now.
    pub fn remaining(&self) -> (r: u128)
        ensures
            r <= self.time_limit_spec(),
            exists|elapsed: u128|
                elapsed <= MAX_ELAPSED_NANOS && r == #[trigger] remaining_after(self.time_limit_spec(), elapsed),
    {
        self.remaining_at(clock_now())
    }

    /// Whether the budget is used up, measured now. A budget longer than any
    /// `Duration` never runs out.
    pub fn is_expired(&self) -> (r: bool)
        ensures
            self.time_limit_spec() == 0 ==> r,
            self.time_limit_spec() > MAX_ELAPSED_NANOS ==> !r,
            exists|elapsed: u128|
                elapsed <= MAX_ELAPSED_NANOS && r == #[trigger] expired_after(self.time_limit_spec(), elapsed),
    {
        self.is_expired_at(clock_now())
    }

    /// Nanoseconds elapsed between the start and `now` (zero if `now` is earlier).
    pub fn elapsed_at(&self, now: Instant) -> (r: u128)
        ensures
            r <= MAX_ELAPSED_NANOS,
    {
        nanos_between(now, self.started_at)
    }

    /// Nanoseconds left at `now`: the budget less the time elapsed since
    /// the start, which the clock measures.
    pub fn remaining_at(&self, now: Instant) -> (r: u128)
        ensures
            r <= self.time_limit_spec(),
            exists|elapsed: u128|
                elapsed <= MAX_ELAPSED_NANOS && r == #[trigger] remaining_after(self.time_limit_spec(), elapsed),
    {
        let elapsed = self.elapsed_at(now);
        let r = self.remaining_after(elapsed);
        assert(elapsed <= MAX_ELAPSED_NANOS && r == remaining_after(self.time_limit_spec(), elapsed));
        r
    }

    /// Whether the budget is used up at `now`.
    pub fn is_expired_at(&self, now: Instant) -> (r: bool)
        ensures
            self.time_limit_spec() == 0 ==> r,
            self.time_limit_spec() > MAX_ELAPSED_NANOS ==> !r,
            exists|elapsed: u128|
                elapsed <= MAX_ELAPSED_NANOS && r == #[trigger] expired_after(self.time_limit_spec(), elapsed),
    {
        let elapsed = self.elapsed_at(now);
        let r = self.is_expired_after(elapsed);
        assert(elapsed <= MAX_ELAPSED_NANOS && r == expired_after(self.time_limit_spec(), elapsed));
        r
    }

    /// Nanoseconds left once `elapsed` nanoseconds have passed.
    pub fn remaining_after(&self, elapsed: u128) -> (r: u128)
        ensures
            r == remaining_after(self.time_limit_spec(), elapsed),
    {
        self.time_limit.saturating_sub(elapsed)
    }

    /// Whether `elapsed` nanoseconds exhaust the budget.
    pub fn is_expired_after(&self, elapsed: u128) -> (r: bool)
        ensures
            r == expired_after(self.time_limit_spec(), elapsed),
    {
        elapsed >= self.time_limit
    }
}

/// Whether `elapsed` nanoseconds exhaust a budget of `limit`.
pub open spec fn expired_after(limit: u128, elapsed: u128) -> bool {
    elapsed >= limit
}

/// Budget left after `elapsed`: the limit minus the elapsed time, never below zero.
pub open spec fn remaining_after(limit: u128, elapsed: u128) -> u128 {
    if elapsed >= limit {
        0
    } else {
        (limit - elapsed) as u128
    }
}

/// Remaining budget never grows as time passes, and is zero exactly when expired.
pub proof fn lemma_deadline_monotonic(limit: u128, earlier: u128, later: u128)
    requires
        earlier <= later,
    ensures
        remaining_after(limit, later) <= remaining_after(limit, earlier),
        (remaining_after(limit, later) == 0) <==> (later >= limit),
        earlier >= limit ==> later >= limit,
{
}

/// Honest status of the returned incumbent.
#[derive(Clone, Copy, Debug, Eq, PartialEq, Structural)]
pub enum OptimalityStatus {
    Heuristic,
    BoundMatched,
    ProvenOptimal,
}

impl OptimalityStatus {
    /// The lower-case label printed by the command line.
    pub fn label(self) -> (r: &'static str)
        ensures
            r@ == optimality_label(self),
    {
        match self {
            OptimalityStatus::Heuristic => "heuristic",
            OptimalityStatus::BoundMatched => "bound_matched",
            OptimalityStatus::ProvenOptimal => "proven_optimal",
        }
    }
}

/// The printed label of each status.
pub open spec fn optimality_label(status: OptimalityStatus) -> Seq<char> {
    match status {
        OptimalityStatus::Heuristic => "heuristic"@,
        OptimalityStatus::BoundMatched => "bound_matched"@,
        OptimalityStatus::ProvenOptimal => "proven_optimal"@,
    }
}

/// Common metrics used to compare backends. `elapsed` is in nanoseconds.
#[derive(Clone, Copy, Debug, Eq, PartialEq, Structural)]
pub struct SolverMetrics {
    explored_candidates: u64,
    validated_candidates: u64,
    improvements: u64,
    elapsed: u128,
}

impl View for SolverMetrics {
    type V = (u64, u64, u64, u128);

    closed spec fn view(&self) -> (u64, u64, u64, u128) {
        (self.explored_candidates, self.validated_candidates, self.improvements, self.elapsed)
    }
}

impl SolverMetrics {
    pub fn new(
        explored_candidates: u64,
        validated_candidates: u64,
        improvements: u64,
        elapsed: u128,
    ) -> (r: SolverMetrics)
        ensures
            r@ == (explored_candidates, validated_candidates, improvements, elapsed),
    {
        SolverMetrics { explored_candidates, validated_candidates, improvements, elapsed }
    }

    pub fn explored_candidates(self) -> (r: u64)
        ensures
            r == self@.0,
    {
        self.explored_candidates
    }

    pub fn validated_candidates(self) -> (r: u64)
        ensures
            r == self@.1,
    {
        self.validated_candidates
    }

    pub fn improvements(self) -> (r: u64)
        ensures
            r == self@.2,
    {
        self.improvements
    }

    pub fn elapsed(self) -> (r: u128)
        ensures
            r == self@.3,
    {
        self.elapsed
    }
}

/// Backend result; its solution remains untrusted until independently checked.
#[derive(Clone, Debug)]
pub struct SolverOutcome {
    solution: Solution,
    metrics: SolverMetrics,
    optimality: OptimalityStatus,
    stop: Option<StopSignal>,
}

impl SolverOutcome {
    pub closed spec fn solution_spec(self) -> Solution {
        self.solution
    }

    pub closed spec fn metrics_spec(self) -> SolverMetrics {
        self.metrics
    }

    pub closed spec fn optimality_spec(self) -> OptimalityStatus {
        self.optimality
    }

    /// Whether the search gave up early because its request asked it to stop.
    pub closed spec fn stopped_spec(self) -> bool {
        self.stop is Some
    }

    pub fn new(solution: Solution, metrics: SolverMetrics, optimality: OptimalityStatus) -> (r:
        SolverOutcome)
        ensures
            r.solution_spec() == solution,
            r.metrics_spec() == metrics,
            r.optimality_spec() == optimality,
            !r.stopped_spec(),
    {
        SolverOutcome { solution, metrics, optimality, stop: None }
    }

    /// The same outcome, recording the stop signal its request gave.
    pub fn with_stop(self, signal: StopSignal) -> (r: SolverOutcome)
        ensures
            r.solution_spec() == self.solution_spec(),
            r.metrics_spec() == self.metrics_spec(),
            r.optimality_spec() == self.optimality_spec(),
            r.stopped_spec(),
    {
        SolverOutcome { stop: Some(signal), ..self }
    }

    /// A copy of the stop signal the search recorded, if it gave up early.
    pub fn stop_signal(&self) -> (r: Option<StopSignal>)
        ensures
            r is Some <==> self.stopped_spec(),
    {
        match &self.stop {
            Some(given) => Some(given.clone()),
            None => None,
        }
    }

    /// Whether the search gave up early because its request asked it to stop.
    pub fn stopped_early(&self) -> (r: bool)
        ensures
            r == self.stopped_spec(),
    {
        self.stop.is_some()
    }

    pub fn solution(&self) -> (r: &Solution)
        ensures
            *r == self.solution_spec(),
    {
        &self.solution
    }

    /// Give up the outcome, keeping its solution.
    pub fn into_solution(self) -> (r: Solution)
        ensures
            r == self.solution_spec(),
    {
        self.solution
    }

    pub fn metrics(&self) -> (r: SolverMetrics)
        ensures
            r == self.metrics_spec(),
    {
        self.metrics
    }

    pub fn optimality(&self) -> (r: OptimalityStatus)
        ensures
            r == self.optimality_spec(),
    {
        self.optimality
    }
}

/// Backend failure that does not masquerade as a packing result.
#[derive(Clone, Debug, Eq, PartialEq)]
pub struct SolverError(String);

impl View for SolverError {
    type V = Seq<char>;

    closed spec fn view(&self) -> Seq<char> {
        self.0@
    }
}

impl SolverError {
    pub fn new(message: &str) -> (r: SolverError)
        ensures
            r@ == message@,
    {
        SolverError(message.to_owned())
    }

    /// An error carrying `message`.
    pub fn from_string(message: String) -> (r: SolverError)
        ensures
            r@ == message@,
    {
        SolverError(message)
    }

    /// The message this error carries.
    pub fn message(&self) -> (r: &str)
        ensures
            r@ == self@,
    {
        self.0.as_str()
    }
}

} // verus!
