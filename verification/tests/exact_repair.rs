use boxpacker::geometry::{Length, LengthConversionError};
use boxpacker::solution::Solution;
use boxpacker::solver::exact::{repair_residual, RepairConfig};
use boxpacker::solver::SolveRequest;
use boxpacker::validate::{build_instance, validate_solution, DimensionInput, PackingInstance, RecordInput};

fn dimension(scaled: u64) -> DimensionInput {
    DimensionInput {
        value_bits: (scaled as f64 / 10.0).to_bits(),
        converted: Length::from_scaled_units(scaled).ok_or(LengthConversionError::NonPositive),
    }
}

fn record(name: &str, sides: [u64; 3]) -> RecordInput {
    RecordInput {
        name: name.to_owned(),
        width: dimension(sides[0]),
        length: dimension(sides[1]),
        height: dimension(sides[2]),
    }
}

fn instance() -> PackingInstance {
    build_instance(
        &[record("container", [40, 20, 10])],
        &[record("left", [20, 20, 10]), record("right", [20, 20, 10])],
    )
    .expect("repair fixture should validate")
}

fn request() -> SolveRequest {
    SolveRequest::new(1_000_000_000, 0, 1)
}

fn all_unplaced(instance: &PackingInstance) -> Solution {
    Solution::new(Vec::new(), instance.items().iter().map(|item| item.id()).collect())
}

#[test]
fn exhaustive_event_repair_places_a_small_residual() {
    let instance = instance();
    let outcome = repair_residual(&instance, &all_unplaced(&instance), &request(), RepairConfig::new(4, 1_000))
        .expect("repair should solve")
        .expect("small residual should be attempted");
    let summary = validate_solution(&instance, outcome.solution()).expect("repaired solution should validate");

    assert_eq!(summary.placed_item_count(), 2);
    assert_eq!(summary.unplaced_item_count(), 0);
    assert!(outcome.exhaustive());
    assert!(outcome.explored_nodes() > 0);
    assert!(outcome.explored_candidates() > 0);
}

#[test]
fn node_bound_returns_the_original_valid_incumbent_without_overclaiming() {
    let instance = instance();
    let incumbent = all_unplaced(&instance);
    let outcome = repair_residual(&instance, &incumbent, &request(), RepairConfig::new(4, 1))
        .expect("bounded repair should return")
        .expect("small residual should be attempted");

    assert_eq!(outcome.solution(), &incumbent);
    assert!(!outcome.exhaustive());
    assert_eq!(outcome.explored_nodes(), 1);
}

#[test]
fn residual_over_item_bound_is_skipped() {
    let instance = instance();

    assert!(repair_residual(&instance, &all_unplaced(&instance), &request(), RepairConfig::new(1, 1_000))
        .expect("bounded repair should not fail")
        .is_none());
}

#[test]
fn repair_rejects_invalid_incumbents_and_skips_complete_ones() {
    let instance = instance();
    let invalid = Solution::new(Vec::new(), Vec::new());
    assert!(repair_residual(&instance, &invalid, &request(), RepairConfig::default()).is_err());
    assert!(repair_residual(&instance, &all_unplaced(&instance), &request(), RepairConfig::new(4, 0))
        .expect("zero budget is not an error")
        .is_none());

    let repaired = repair_residual(&instance, &all_unplaced(&instance), &request(), RepairConfig::default())
        .expect("repair")
        .expect("attempted");
    assert!(repair_residual(&instance, repaired.solution(), &request(), RepairConfig::default())
        .expect("complete incumbent")
        .is_none());
    assert_eq!(RepairConfig::default().max_items(), 6);
    assert_eq!(RepairConfig::default().max_nodes(), 512);
}

#[test]
fn event_placements_sit_at_faces_of_frozen_boxes() {
    let instance = instance();
    let outcome = repair_residual(&instance, &all_unplaced(&instance), &request(), RepairConfig::new(4, 1_000))
        .expect("repair")
        .expect("attempted");
    let mut origins: Vec<u64> = outcome
        .solution()
        .placements()
        .iter()
        .map(|placement| placement.bounds().origin().x().get())
        .collect();
    origins.sort_unstable();

    assert_eq!(origins, vec![0, 20]);
}
