use boxpacker::geometry::{Aabb, Coordinate, Dimensions, Length, LengthConversionError, Point};
use boxpacker::objective::ObjectiveValue;
use boxpacker::solution::{Placement, Solution};
use boxpacker::solver::{OptimalityStatus, SolveRequest, SolverBackend, SolverError, SolverMetrics, SolverOutcome};
use boxpacker::validate::{
    build_instance, validate_solution, Axis, DimensionInput, ItemLocation, PackingInstance, RecordInput,
    SolutionValidationError,
};

fn dimension(scaled: u64) -> DimensionInput {
    DimensionInput {
        value_bits: (scaled as f64 / 10.0).to_bits(),
        converted: Length::from_scaled_units(scaled).ok_or(LengthConversionError::NonPositive),
    }
}

fn record(name: &str, sides: [u64; 3]) -> RecordInput {
    RecordInput {
        name: name.to_owned(),
        width: dimension(sides[0]),
        length: dimension(sides[1]),
        height: dimension(sides[2]),
    }
}

fn instance(containers: &[[u64; 3]], items: &[[u64; 3]]) -> PackingInstance {
    let containers: Vec<RecordInput> = containers
        .iter()
        .enumerate()
        .map(|(index, sides)| record(&format!("container {index}"), *sides))
        .collect();
    let items: Vec<RecordInput> = items
        .iter()
        .enumerate()
        .map(|(index, sides)| record(&format!("item {index}"), *sides))
        .collect();
    build_instance(&containers, &items).expect("test instance should validate")
}

fn exact_dimensions(width: u64, length: u64, height: u64) -> Dimensions {
    Dimensions::new(
        Length::from_scaled_units(width).expect("test width should be exact"),
        Length::from_scaled_units(length).expect("test length should be exact"),
        Length::from_scaled_units(height).expect("test height should be exact"),
    )
}

fn exact_bounds(x: u64, y: u64, z: u64, width: u64, length: u64, height: u64) -> Aabb {
    Aabb::new(
        Point::new(
            Coordinate::from_scaled_units(x),
            Coordinate::from_scaled_units(y),
            Coordinate::from_scaled_units(z),
        ),
        exact_dimensions(width, length, height),
    )
}

fn placement(instance: &PackingInstance, container_index: usize, item_index: usize, bounds: Aabb) -> Placement {
    Placement::new(instance.containers()[container_index].id(), instance.items()[item_index].id(), bounds)
}

#[test]
fn face_contact_is_allowed_but_positive_volume_overlap_is_rejected() {
    let instance = instance(&[[100, 100, 100]], &[[20, 20, 20], [20, 20, 20]]);
    let touching = Solution::new(
        vec![
            placement(&instance, 0, 0, exact_bounds(0, 0, 0, 20, 20, 20)),
            placement(&instance, 0, 1, exact_bounds(20, 0, 0, 20, 20, 20)),
        ],
        Vec::new(),
    );
    validate_solution(&instance, &touching).expect("face contact should not overlap");

    let overlapping = Solution::new(
        vec![touching.placements()[0], placement(&instance, 0, 1, exact_bounds(10, 0, 0, 20, 20, 20))],
        Vec::new(),
    );
    let errors = validate_solution(&instance, &overlapping).expect_err("positive overlap must fail");

    assert!(errors.errors().contains(&SolutionValidationError::Overlap {
        container_id: instance.containers()[0].id(),
        first_placement: 0,
        second_placement: 1,
    }));
}

#[test]
fn unsupported_area_is_an_objective_metric_not_a_geometry_failure() {
    let instance = instance(&[[100, 100, 100]], &[[10, 10, 10]]);
    let floating = Solution::new(vec![placement(&instance, 0, 0, exact_bounds(0, 0, 10, 10, 10, 10))], Vec::new());

    let summary = validate_solution(&instance, &floating).expect("support is an objective, not validity");
    let objective = ObjectiveValue::from_summary(&summary);

    assert_eq!(summary.unsupported_area(), 100);
    assert_eq!(objective.unsupported_area(), 100);
}

#[test]
fn invalid_orientation_and_out_of_bounds_are_reported_exactly() {
    let instance = instance(&[[100, 100, 100]], &[[10, 20, 30]]);
    let invalid = Solution::new(vec![placement(&instance, 0, 0, exact_bounds(90, 0, 0, 40, 20, 10))], Vec::new());

    let errors = validate_solution(&instance, &invalid).expect_err("wrong dimensions and bounds should both fail");

    assert!(errors.errors().iter().any(|error| matches!(
        error,
        SolutionValidationError::InvalidOrientation { placement_index: 0, item_id, .. }
            if *item_id == instance.items()[0].id()
    )));
    assert!(errors.errors().contains(&SolutionValidationError::OutOfBounds {
        placement_index: 0,
        container_id: instance.containers()[0].id(),
        axis: Axis::X,
        end: 130,
        limit: 100,
    }));
}

#[test]
fn duplicate_and_missing_items_are_reported_together() {
    let instance = instance(&[[100, 100, 100]], &[[10, 10, 10], [10, 10, 10]]);
    let item_zero = instance.items()[0].id();
    let item_one = instance.items()[1].id();
    let invalid = Solution::new(vec![placement(&instance, 0, 0, exact_bounds(0, 0, 0, 10, 10, 10))], vec![item_zero]);

    let errors = validate_solution(&instance, &invalid).expect_err("coverage violations should fail");

    assert!(errors.errors().contains(&SolutionValidationError::DuplicateItem {
        item_id: item_zero,
        first: ItemLocation::Placed(0),
        duplicate: ItemLocation::Unplaced(0),
    }));
    assert!(errors.errors().contains(&SolutionValidationError::MissingItem { item_id: item_one }));
}

#[test]
fn coordinate_end_overflow_is_rejected_without_wrapping() {
    let instance = instance(&[[100, 100, 100]], &[[10, 10, 10]]);
    let bounds = Aabb::new(
        Point::new(Coordinate::from_scaled_units(u64::MAX), Coordinate::from_scaled_units(0), Coordinate::from_scaled_units(0)),
        exact_dimensions(10, 10, 10),
    );
    let invalid = Solution::new(vec![placement(&instance, 0, 0, bounds)], Vec::new());

    let errors = validate_solution(&instance, &invalid).expect_err("coordinate overflow should fail");

    assert!(errors.errors().contains(&SolutionValidationError::CoordinateOverflow {
        placement_index: 0,
        axis: Axis::X,
        origin: u64::MAX,
    }));
}

#[test]
fn ids_from_a_different_instance_cannot_escape_range_checks() {
    let larger = instance(&[[100, 100, 100], [100, 100, 100]], &[[10, 10, 10], [10, 10, 10]]);
    let smaller = instance(&[[100, 100, 100]], &[[10, 10, 10]]);
    let invalid = Solution::new(
        vec![Placement::new(larger.containers()[1].id(), larger.items()[1].id(), exact_bounds(0, 0, 0, 10, 10, 10))],
        vec![smaller.items()[0].id()],
    );

    let errors = validate_solution(&smaller, &invalid).expect_err("foreign out-of-range IDs should fail");

    assert!(matches!(errors.errors()[0], SolutionValidationError::UnknownContainer { placement_index: 0, .. }));
    assert!(matches!(errors.errors()[1], SolutionValidationError::UnknownPlacedItem { placement_index: 0, .. }));
}

#[test]
fn objective_is_volume_first_then_count_and_compactness() {
    let instance = instance(&[[100, 100, 100]], &[[20, 20, 20], [10, 10, 10], [10, 10, 10]]);
    let leave_large = Solution::new(
        vec![
            placement(&instance, 0, 1, exact_bounds(0, 0, 0, 10, 10, 10)),
            placement(&instance, 0, 2, exact_bounds(10, 0, 0, 10, 10, 10)),
        ],
        vec![instance.items()[0].id()],
    );
    let leave_two_small = Solution::new(
        vec![placement(&instance, 0, 0, exact_bounds(0, 0, 0, 20, 20, 20))],
        vec![instance.items()[1].id(), instance.items()[2].id()],
    );
    let volume_first = ObjectiveValue::from_summary(&validate_solution(&instance, &leave_two_small).expect("solution should validate"));
    let count_first = ObjectiveValue::from_summary(&validate_solution(&instance, &leave_large).expect("solution should validate"));

    assert!(volume_first.is_better_than(&count_first));
    assert_eq!(volume_first.unplaced_item_count(), 2);
    assert_eq!(count_first.unplaced_item_count(), 1);

    let compact = Solution::new(
        vec![
            placement(&instance, 0, 1, exact_bounds(0, 0, 0, 10, 10, 10)),
            placement(&instance, 0, 2, exact_bounds(10, 0, 0, 10, 10, 10)),
        ],
        vec![instance.items()[0].id()],
    );
    let spread = Solution::new(
        vec![compact.placements()[0], placement(&instance, 0, 2, exact_bounds(90, 0, 0, 10, 10, 10))],
        vec![instance.items()[0].id()],
    );
    let compact_objective = ObjectiveValue::from_summary(&validate_solution(&instance, &compact).expect("compact solution should validate"));
    let spread_objective = ObjectiveValue::from_summary(&validate_solution(&instance, &spread).expect("spread solution should validate"));

    assert!(compact_objective.is_better_than(&spread_objective));
    assert!(compact_objective.bounding_volume() < spread_objective.bounding_volume());
}

#[test]
fn objective_uses_count_then_containers_after_volume() {
    let count_instance = instance(&[[100, 100, 100]], &[[10, 10, 20], [10, 10, 10], [10, 10, 10]]);
    let leave_one = Solution::new(
        vec![
            placement(&count_instance, 0, 1, exact_bounds(0, 0, 0, 10, 10, 10)),
            placement(&count_instance, 0, 2, exact_bounds(10, 0, 0, 10, 10, 10)),
        ],
        vec![count_instance.items()[0].id()],
    );
    let leave_two = Solution::new(
        vec![placement(&count_instance, 0, 0, exact_bounds(0, 0, 0, 10, 10, 20))],
        vec![count_instance.items()[1].id(), count_instance.items()[2].id()],
    );
    let one_unplaced = ObjectiveValue::from_summary(&validate_solution(&count_instance, &leave_one).expect("solution should validate"));
    let two_unplaced = ObjectiveValue::from_summary(&validate_solution(&count_instance, &leave_two).expect("solution should validate"));

    assert_eq!(one_unplaced.unplaced_volume(), two_unplaced.unplaced_volume());
    assert!(one_unplaced.is_better_than(&two_unplaced));

    let container_instance = instance(&[[100, 100, 100], [100, 100, 100]], &[[10, 10, 10], [10, 10, 10]]);
    let one_container = Solution::new(
        vec![
            placement(&container_instance, 0, 0, exact_bounds(0, 0, 0, 10, 10, 10)),
            placement(&container_instance, 0, 1, exact_bounds(10, 0, 0, 10, 10, 10)),
        ],
        Vec::new(),
    );
    let two_containers = Solution::new(
        vec![
            placement(&container_instance, 0, 0, exact_bounds(0, 0, 0, 10, 10, 10)),
            placement(&container_instance, 1, 1, exact_bounds(0, 0, 0, 10, 10, 10)),
        ],
        Vec::new(),
    );
    let one_container_objective = ObjectiveValue::from_summary(&validate_solution(&container_instance, &one_container).expect("one-container solution should validate"));
    let two_container_objective = ObjectiveValue::from_summary(&validate_solution(&container_instance, &two_containers).expect("two-container solution should validate"));

    assert_eq!(one_container_objective.unplaced_volume(), 0);
    assert_eq!(one_container_objective.unplaced_item_count(), 0);
    assert_eq!(one_container_objective.used_container_count(), 1);
    assert_eq!(two_container_objective.used_container_count(), 2);
    assert!(one_container_objective.is_better_than(&two_container_objective));
    assert_eq!(two_container_objective.compare_to(&one_container_objective), -1);
    assert_eq!(one_container_objective.compare_to(&one_container_objective), 0);
}

struct AllUnplacedBackend;

impl SolverBackend for AllUnplacedBackend {
    fn name(&self) -> &str {
        "all-unplaced-test"
    }

    fn solve(&self, instance: &PackingInstance, request: &SolveRequest) -> Result<SolverOutcome, SolverError> {
        let solution = Solution::new(Vec::new(), instance.items().iter().map(|item| item.id()).collect());
        Ok(SolverOutcome::new(
            solution,
            SolverMetrics::new(1, 1, 0, request.deadline().elapsed()),
            OptimalityStatus::Heuristic,
        ))
    }
}

#[test]
fn backend_contract_is_object_safe_and_reports_common_metrics() {
    let instance = instance(&[[100, 100, 100]], &[[10, 10, 10]]);
    let backend: &dyn SolverBackend = &AllUnplacedBackend;
    let request = SolveRequest::new(1_000_000_000, 42, 1);

    let outcome = backend.solve(&instance, &request).expect("test backend should solve");
    let summary = validate_solution(&instance, outcome.solution()).expect("backend output should validate independently");

    assert_eq!(backend.name(), "all-unplaced-test");
    assert_eq!(request.seed(), 42);
    assert_eq!(request.threads(), 1);
    assert_eq!(outcome.optimality(), OptimalityStatus::Heuristic);
    assert_eq!(outcome.metrics().explored_candidates(), 1);
    assert_eq!(outcome.metrics().validated_candidates(), 1);
    assert_eq!(outcome.metrics().improvements(), 0);
    assert!(outcome.metrics().elapsed() <= request.deadline().elapsed());
    assert_eq!(summary.unplaced_item_count(), 1);
}

struct TestGenerator {
    state: u64,
}

impl TestGenerator {
    const fn new(seed: u64) -> Self {
        Self { state: seed }
    }

    fn next(&mut self) -> u64 {
        self.state = self.state.wrapping_add(0x9e37_79b9_7f4a_7c15);
        let mut value = self.state;
        value = (value ^ (value >> 30)).wrapping_mul(0xbf58_476d_1ce4_e5b9);
        value = (value ^ (value >> 27)).wrapping_mul(0x94d0_49bb_1331_11eb);
        value ^ (value >> 31)
    }

    fn range(&mut self, upper: usize) -> usize {
        usize::try_from(self.next() % u64::try_from(upper).expect("test range fits u64")).expect("bounded test value fits usize")
    }

    fn scaled_length(&mut self, max_scaled: u64) -> u64 {
        1 + self.next() % max_scaled
    }
}

#[test]
fn bounded_randomized_valid_solutions_survive_reordering_and_detect_overlap() {
    let mut generator = TestGenerator::new(0x19b4_56f2_a77c_d301);

    for _case in 0..512 {
        let item_count = 2 + generator.range(5);
        let item_scaled_dimensions: Vec<[u64; 3]> = (0..item_count)
            .map(|_| [generator.scaled_length(20), generator.scaled_length(20), generator.scaled_length(20)])
            .collect();
        let container_width: u64 = item_scaled_dimensions.iter().map(|d| d[0]).sum();
        let container_length = item_scaled_dimensions.iter().map(|d| d[1]).max().expect("non-empty");
        let container_height = item_scaled_dimensions.iter().map(|d| d[2]).max().expect("non-empty");
        let instance = instance(&[[container_width, container_length, container_height]], &item_scaled_dimensions);

        let mut scaled_x = 0_u64;
        let placements: Vec<Placement> = item_scaled_dimensions
            .iter()
            .enumerate()
            .map(|(item_index, d)| {
                let placed = placement(&instance, 0, item_index, exact_bounds(scaled_x, 0, 0, d[0], d[1], d[2]));
                scaled_x += d[0];
                placed
            })
            .collect();
        let valid = Solution::new(placements.clone(), Vec::new());
        let valid_summary = validate_solution(&instance, &valid).expect("generated shelf solution should validate");

        let mut reversed = placements.clone();
        reversed.reverse();
        let reversed_summary = validate_solution(&instance, &Solution::new(reversed, Vec::new()))
            .expect("placement order must not change validity");
        assert_eq!(ObjectiveValue::from_summary(&valid_summary), ObjectiveValue::from_summary(&reversed_summary));
        assert_eq!(valid_summary.placed_item_count(), item_count);
        assert_eq!(valid_summary.unplaced_item_count(), 0);

        let mut overlapping = placements;
        let second = item_scaled_dimensions[1];
        overlapping[1] = placement(&instance, 0, 1, exact_bounds(0, 0, 0, second[0], second[1], second[2]));
        let errors = validate_solution(&instance, &Solution::new(overlapping, Vec::new()))
            .expect_err("generated positive-volume overlap should fail");
        assert!(errors.errors().iter().any(|error| matches!(error, SolutionValidationError::Overlap { .. })));
    }
}
