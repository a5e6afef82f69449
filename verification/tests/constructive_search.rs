use boxpacker::geometry::{Dimensions, Length, LengthConversionError};
use boxpacker::solver::constructive::{
    prune_contained_spaces, solve_with_item_order, ConstructionPlan, ConstructiveBackend, Extents, FreeSpace,
    ItemOrder,
};
use boxpacker::solver::{OptimalityStatus, SolveRequest, SolverBackend};
use boxpacker::validate::{build_instance, validate_solution, DimensionInput, PackingInstance, RecordInput};

fn dimension(scaled: u64) -> DimensionInput {
    DimensionInput {
        value_bits: (scaled as f64 / 10.0).to_bits(),
        converted: Length::from_scaled_units(scaled).ok_or(LengthConversionError::NonPositive),
    }
}

fn record(name: &str, sides: [u64; 3]) -> RecordInput {
    RecordInput {
        name: name.to_owned(),
        width: dimension(sides[0]),
        length: dimension(sides[1]),
        height: dimension(sides[2]),
    }
}

fn instance(containers: &[[u64; 3]], items: &[[u64; 3]]) -> PackingInstance {
    let containers: Vec<RecordInput> = containers
        .iter()
        .enumerate()
        .map(|(index, sides)| record(&format!("container {index}"), *sides))
        .collect();
    let items: Vec<RecordInput> = items
        .iter()
        .enumerate()
        .map(|(index, sides)| record(&format!("item {index}"), *sides))
        .collect();
    build_instance(&containers, &items).expect("test instance should validate")
}

fn dimensions(width: u64, length: u64, height: u64) -> Dimensions {
    Dimensions::new(
        Length::from_scaled_units(width).expect("positive test width"),
        Length::from_scaled_units(length).expect("positive test length"),
        Length::from_scaled_units(height).expect("positive test height"),
    )
}

fn request(time_limit: u128) -> SolveRequest {
    SolveRequest::new(time_limit, 7, 1)
}

#[test]
fn maximal_space_split_excludes_the_placed_volume() {
    let space = FreeSpace::container(dimensions(100, 80, 60));
    let placed = Extents { x_min: 20, x_max: 50, y_min: 10, y_max: 40, z_min: 5, z_max: 25 };

    let residuals = space.split_around(placed);

    assert_eq!(residuals.len(), 6);
    assert!(residuals.iter().all(|residual| space.contains(*residual)));
    assert!(residuals.iter().all(|residual| !residual.intersects(placed)));
}

#[test]
fn dominated_maximal_spaces_are_removed_deterministically() {
    let outer = FreeSpace { x_min: 0, x_max: 100, y_min: 0, y_max: 100, z_min: 0, z_max: 100 };
    let inner = FreeSpace { x_min: 10, x_max: 20, y_min: 10, y_max: 20, z_min: 10, z_max: 20 };
    let mut spaces = vec![inner, outer, inner];

    prune_contained_spaces(&mut spaces);

    assert_eq!(spaces, vec![outer]);
}

#[test]
fn split_of_a_corner_box_keeps_only_the_three_far_slabs() {
    let space = FreeSpace::container(dimensions(10, 10, 10));
    let placed = Extents { x_min: 0, x_max: 4, y_min: 0, y_max: 5, z_min: 0, z_max: 6 };

    let residuals = space.split_around(placed);

    assert_eq!(
        residuals,
        vec![
            FreeSpace { x_min: 4, x_max: 10, y_min: 0, y_max: 10, z_min: 0, z_max: 10 },
            FreeSpace { x_min: 0, x_max: 10, y_min: 5, y_max: 10, z_min: 0, z_max: 10 },
            FreeSpace { x_min: 0, x_max: 10, y_min: 0, y_max: 10, z_min: 6, z_max: 10 },
        ]
    );
}

#[test]
fn maximal_spaces_pack_items_at_face_derived_coordinates() {
    let instance = instance(&[[100, 100, 100]], &[[37, 100, 100], [63, 100, 100]]);

    let outcome = ConstructiveBackend.solve(&instance, &request(1_000_000_000)).expect("constructive backend should solve");
    let summary = validate_solution(&instance, outcome.solution()).expect("constructive result should independently validate");
    let mut x_origins: Vec<u64> = outcome
        .solution()
        .placements()
        .iter()
        .map(|placement| placement.bounds().origin().x().get())
        .collect();
    x_origins.sort_unstable();

    assert_eq!(summary.placed_item_count(), 2);
    assert_eq!(summary.unplaced_item_count(), 0);
    assert_eq!(x_origins, [0, 63]);
    assert_eq!(outcome.optimality(), OptimalityStatus::Heuristic);
}

#[test]
fn unique_rotations_allow_an_item_to_fit() {
    let instance = instance(&[[20, 30, 40]], &[[40, 20, 30]]);

    let outcome = ConstructiveBackend.solve(&instance, &request(1_000_000_000)).expect("rotated item should solve");
    let summary = validate_solution(&instance, outcome.solution()).expect("rotated solution should validate");

    assert_eq!(summary.placed_item_count(), 1);
    assert_eq!(summary.unplaced_item_count(), 0);
}

#[test]
fn items_that_fit_no_container_are_reported_unplaced() {
    let instance = instance(&[[20, 20, 20]], &[[30, 10, 10]]);

    let outcome = ConstructiveBackend.solve(&instance, &request(1_000_000_000)).expect("no-fit instance should still return a solution");
    let summary = validate_solution(&instance, outcome.solution()).expect("no-fit solution should validate");

    assert_eq!(summary.placed_item_count(), 0);
    assert_eq!(summary.unplaced_item_count(), 1);
}

#[test]
fn an_expired_deadline_returns_a_complete_valid_incumbent() {
    let instance = instance(&[[100, 100, 100]], &[[10, 10, 10], [20, 20, 20]]);

    let outcome = ConstructiveBackend.solve(&instance, &request(0)).expect("expired search should return all items unplaced");
    let summary = validate_solution(&instance, outcome.solution()).expect("deadline incumbent should validate");

    assert_eq!(summary.placed_item_count(), 0);
    assert_eq!(summary.unplaced_item_count(), 2);
}

#[test]
fn canonical_order_puts_larger_items_first_and_is_reproducible() {
    let instance = instance(&[[100, 100, 100]], &[[10, 10, 10], [30, 10, 10], [20, 10, 10], [30, 10, 10]]);
    let plan = ConstructionPlan::canonical(&instance);
    let order: Vec<usize> = plan.item_ids.iter().map(|id| id.index()).collect();

    assert_eq!(order, vec![1, 3, 2, 0]);
    assert!(plan.forced_rotations.is_empty());

    let first = solve_with_item_order(&instance, &request(10_000_000_000), ItemOrder::Canonical).expect("solve");
    let second = ConstructiveBackend.solve(&instance, &request(10_000_000_000)).expect("solve");
    assert_eq!(first.solution(), second.solution());
    assert_eq!(first.metrics().validated_candidates(), 1);
    assert_eq!(first.metrics().improvements(), 4);
    assert!(first.metrics().explored_candidates() > 0);
    assert_eq!(ConstructiveBackend.name(), "constructive-maximal-space");
}

#[test]
fn without_a_binding_deadline_every_item_that_still_fits_is_placed() {
    // Two 60-wide items cannot share the 100-wide container; a third small
    // item still fits beside the first one.
    let instance = instance(&[[100, 100, 100]], &[[60, 100, 100], [60, 100, 100], [40, 100, 100]]);

    let outcome = ConstructiveBackend.solve(&instance, &request(u128::MAX)).expect("solve");
    let summary = validate_solution(&instance, outcome.solution()).expect("valid");

    assert_eq!(summary.placed_item_count(), 2);
    assert_eq!(summary.unplaced_item_count(), 1);
    let unplaced: Vec<usize> = outcome.solution().unplaced_items().iter().map(|id| id.index()).collect();
    assert_eq!(unplaced.len(), 1);
    assert!(unplaced[0] == 0 || unplaced[0] == 1);
}

#[test]
fn a_second_container_takes_what_the_first_cannot_hold() {
    let instance = instance(&[[50, 50, 50], [50, 50, 50]], &[[50, 50, 50], [50, 50, 50]]);

    let outcome = ConstructiveBackend.solve(&instance, &request(u128::MAX)).expect("solve");
    let summary = validate_solution(&instance, outcome.solution()).expect("valid");

    assert_eq!(summary.placed_item_count(), 2);
    assert_eq!(summary.used_container_count(), 2);
}

#[test]
fn small_known_answer_fills_one_container() {
    let instance = instance(&[[40, 40, 40]], &[[20, 20, 40], [20, 20, 40], [20, 20, 40], [20, 20, 40]]);

    let outcome = ConstructiveBackend.solve(&instance, &request(10_000_000_000)).expect("solve");
    let summary = validate_solution(&instance, outcome.solution()).expect("valid");

    assert_eq!(summary.placed_item_count(), 4);
    assert_eq!(summary.unplaced_item_count(), 0);
    assert_eq!(summary.used_container_count(), 1);
    assert_eq!(summary.placed_volume(), 64_000);
}

#[test]
fn adversarial_volume_slack_does_not_imply_geometric_fit() {
    let instance = instance(&[[50, 50, 10]], &[[30, 40, 10], [30, 40, 10]]);

    let outcome = ConstructiveBackend.solve(&instance, &request(10_000_000_000)).expect("solve");
    let summary = validate_solution(&instance, outcome.solution()).expect("valid");

    assert_eq!(summary.placed_item_count(), 1);
    assert_eq!(summary.unplaced_item_count(), 1);
    assert_eq!(summary.placed_volume(), 12_000);
}

#[test]
fn without_a_binding_deadline_two_runs_agree() {
    let instance = instance(&[[50, 40, 30], [30, 30, 30]], &[[20, 10, 10], [30, 20, 10], [10, 10, 10], [25, 15, 5]]);

    let first = ConstructiveBackend.solve(&instance, &request(u128::MAX)).expect("solve");
    let second = ConstructiveBackend.solve(&instance, &request(u128::MAX)).expect("solve");

    assert_eq!(first.solution(), second.solution());
    assert_eq!(first.metrics().explored_candidates(), second.metrics().explored_candidates());
}
