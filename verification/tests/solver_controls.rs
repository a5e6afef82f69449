use std::time::{Duration, Instant};

use boxpacker::solver::{CancellationToken, Deadline, OptimalityStatus, SolveRequest, SolverError, SolverMetrics};

#[test]
fn deadline_uses_a_monotonic_bounded_budget() {
    let started_at = Instant::now();
    let deadline = Deadline::starting_at(started_at, 5_000_000_000);

    assert_eq!(deadline.remaining_at(started_at + Duration::from_secs(2)), 3_000_000_000);
    assert!(!deadline.is_expired_at(started_at + Duration::from_millis(4_999)));
    assert!(deadline.is_expired_at(started_at + Duration::from_secs(5)));
    assert_eq!(deadline.remaining_at(started_at + Duration::from_secs(8)), 0);
}

#[test]
fn cancellation_is_shared_across_token_clones_and_requests() {
    let cancellation = CancellationToken::new();
    let request = SolveRequest::with_cancellation(1_000_000_000, 0, 1, cancellation.clone());

    assert!(!request.should_stop());
    cancellation.cancel();
    assert!(request.should_stop());
    assert!(request.cancellation().is_cancelled());
}

#[test]
fn remaining_budget_saturates_and_expiry_is_inclusive() {
    let deadline = Deadline::starting_at(Instant::now(), 10);

    assert_eq!(deadline.remaining_after(0), 10);
    assert_eq!(deadline.remaining_after(4), 6);
    assert_eq!(deadline.remaining_after(10), 0);
    assert_eq!(deadline.remaining_after(u128::MAX), 0);
    assert!(!deadline.is_expired_after(9));
    assert!(deadline.is_expired_after(10));
    assert!(Deadline::new(0).is_expired());
    assert_eq!(deadline.time_limit(), 10);
}

#[test]
fn request_reports_its_controls() {
    let request = SolveRequest::new(7, 42, 3);

    assert_eq!(request.seed(), 42);
    assert_eq!(request.threads(), 3);
    assert_eq!(request.deadline().time_limit(), 7);
    assert!(request.deadline().remaining() <= 7);
    let copy = request.clone();
    assert_eq!(copy.seed(), 42);
}

#[test]
fn statuses_metrics_and_errors_keep_their_values() {
    assert_eq!(OptimalityStatus::Heuristic.label(), "heuristic");
    assert_eq!(OptimalityStatus::BoundMatched.label(), "bound_matched");
    assert_eq!(OptimalityStatus::ProvenOptimal.label(), "proven_optimal");

    let metrics = SolverMetrics::new(5, 4, 3, 2);
    assert_eq!(metrics.explored_candidates(), 5);
    assert_eq!(metrics.validated_candidates(), 4);
    assert_eq!(metrics.improvements(), 3);
    assert_eq!(metrics.elapsed(), 2);

    assert_eq!(SolverError::new("boom").message(), "boom");
    assert_eq!(SolverError::from_string("bang".to_owned()).message(), "bang");
}
