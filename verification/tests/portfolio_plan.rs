use boxpacker::geometry::{Length, LengthConversionError};
use boxpacker::solver::constructive::{solve_with_item_order, ConstructiveBackend, ItemOrder};
use boxpacker::solver::portfolio::{
    checked_metric_add, derive_seed, Incumbent, PortfolioBackend, WorkPlan, WorkUnit,
};
use boxpacker::solver::{CancellationToken, SolveRequest, SolverBackend};
use boxpacker::validate::{build_instance, validate_solution, DimensionInput, PackingInstance, RecordInput};
use boxpacker::objective::ObjectiveValue;

fn dimension(scaled: u64) -> DimensionInput {
    DimensionInput {
        value_bits: (scaled as f64 / 10.0).to_bits(),
        converted: Length::from_scaled_units(scaled).ok_or(LengthConversionError::NonPositive),
    }
}

fn record(name: &str, sides: [u64; 3]) -> RecordInput {
    RecordInput {
        name: name.to_owned(),
        width: dimension(sides[0]),
        length: dimension(sides[1]),
        height: dimension(sides[2]),
    }
}

fn instance(containers: &[[u64; 3]], items: &[[u64; 3]]) -> PackingInstance {
    let containers: Vec<RecordInput> = containers
        .iter()
        .enumerate()
        .map(|(index, sides)| record(&format!("container {index}"), *sides))
        .collect();
    let items: Vec<RecordInput> = items
        .iter()
        .enumerate()
        .map(|(index, sides)| record(&format!("item {index}"), *sides))
        .collect();
    build_instance(&containers, &items).expect("test instance should validate")
}

fn mixed_instance() -> PackingInstance {
    let items: Vec<[u64; 3]> = (0..12).map(|index| [10 + 10 * (index % 3), 10, 10]).collect();
    instance(&[[30, 30, 30], [20, 20, 20]], &items)
}

#[test]
fn work_plan_is_seeded_and_partitioned_round_robin() {
    let plan = WorkPlan::new(17, 7, 3);

    assert_eq!(plan.canonical.item_order, ItemOrder::Canonical);
    assert_eq!(
        plan.partitions
            .iter()
            .map(|partition| partition.iter().map(|work| work.index).collect::<Vec<_>>())
            .collect::<Vec<_>>(),
        vec![vec![1, 4], vec![2, 5], vec![3, 6]]
    );
    assert_eq!(plan.partitions[0][0].item_order, ItemOrder::Seeded(derive_seed(17, 1)));
}

#[test]
fn fixed_seed_defines_work_independently_of_thread_count() {
    let serial = WorkPlan::new(41, 8, 1);
    let parallel = WorkPlan::new(41, 8, 4);

    let mut serial_work: Vec<WorkUnit> = serial.partitions.into_iter().flatten().collect();
    let mut parallel_work: Vec<WorkUnit> = parallel.partitions.into_iter().flatten().collect();
    serial_work.sort_unstable_by_key(|work| work.index);
    parallel_work.sort_unstable_by_key(|work| work.index);

    assert_eq!(serial_work, parallel_work);
    assert_ne!(derive_seed(41, 1), derive_seed(42, 1));
}

#[test]
fn one_work_unit_needs_no_seeded_worker_partition() {
    let plan = WorkPlan::new(0, 1, 8);

    assert!(plan.partitions.is_empty());
    assert_eq!(plan.canonical.index, 0);
}

#[test]
fn derived_seeds_follow_the_splitmix_finalizer() {
    // z = seed ^ index * gamma (wrapping), then the SplitMix64 output mix.
    fn reference(seed: u64, index: u64) -> u64 {
        let mut value = seed ^ index.wrapping_mul(0x9e37_79b9_7f4a_7c15);
        value = (value ^ (value >> 30)).wrapping_mul(0xbf58_476d_1ce4_e5b9);
        value = (value ^ (value >> 27)).wrapping_mul(0x94d0_49bb_1331_11eb);
        value ^ (value >> 31)
    }
    for index in 0..20_u64 {
        assert_eq!(derive_seed(99, index as usize), reference(99, index));
    }
    assert_eq!(derive_seed(0, 0), 0);
}

#[test]
fn fewer_seeded_units_than_threads_use_fewer_workers() {
    let plan = WorkPlan::new(5, 3, 8);

    assert_eq!(plan.partitions.len(), 2);
    assert_eq!(plan.partitions[0][0].index, 1);
    assert_eq!(plan.partitions[1][0].index, 2);
    assert_eq!(PortfolioBackend::default().work_units(), 8);
    assert_eq!(PortfolioBackend::new(3).work_units(), 3);
}

#[test]
fn portfolio_is_reproducible_and_never_worse_than_the_canonical_construction() {
    let instance = mixed_instance();
    let backend = PortfolioBackend::new(8);
    let serial = backend.solve(&instance, &SolveRequest::new(10_000_000_000, 73, 1)).expect("serial");
    let parallel = backend.solve(&instance, &SolveRequest::new(10_000_000_000, 73, 4)).expect("parallel");
    let canonical = ConstructiveBackend
        .solve(&instance, &SolveRequest::new(10_000_000_000, 73, 1))
        .expect("canonical");

    assert_eq!(serial.solution(), parallel.solution());
    assert_eq!(serial.metrics().validated_candidates(), 8);
    let portfolio_objective =
        ObjectiveValue::from_summary(&validate_solution(&instance, serial.solution()).expect("valid"));
    let canonical_objective =
        ObjectiveValue::from_summary(&validate_solution(&instance, canonical.solution()).expect("valid"));
    assert!(portfolio_objective.compare_to(&canonical_objective) >= 0);
    assert_eq!(backend.name(), "deterministic-constructive-portfolio");
}

#[test]
fn cancelled_request_returns_only_the_canonical_incumbent() {
    let instance = mixed_instance();
    let cancellation = CancellationToken::new();
    cancellation.cancel();
    let request = SolveRequest::with_cancellation(10_000_000_000, 11, 4, cancellation);

    let outcome = PortfolioBackend::default().solve(&instance, &request).expect("cancelled portfolio");
    let summary = validate_solution(&instance, outcome.solution()).expect("valid incumbent");

    assert_eq!(outcome.metrics().validated_candidates(), 1);
    assert_eq!(summary.placed_item_count(), 0);
    assert_eq!(summary.unplaced_item_count(), 12);
}

#[test]
fn incumbent_prefers_the_better_objective_then_the_smaller_work_index() {
    let instance = mixed_instance();
    let request = SolveRequest::new(10_000_000_000, 3, 1);
    let mut incumbent = Incumbent::new();
    let first = solve_with_item_order(&instance, &request, ItemOrder::Seeded(7)).expect("seeded");
    let first_solution = first.solution().clone();
    let twin = solve_with_item_order(&instance, &request, ItemOrder::Seeded(7)).expect("seeded again");

    incumbent.publish(&instance, 5, first).expect("first publish");
    incumbent.publish(&instance, 2, twin).expect("second publish");
    let duplicate = solve_with_item_order(&instance, &request, ItemOrder::Canonical).expect("canonical");
    assert!(incumbent.publish(&instance, 5, duplicate).is_err());

    let snapshot = incumbent.into_snapshot().expect("snapshot");
    assert_eq!(snapshot.validated_candidates, 2);
    assert_eq!(snapshot.improvements, 1);
    assert_eq!(snapshot.solution, first_solution);
    assert!(Incumbent::new().into_snapshot().is_err());
}

#[test]
fn metric_additions_are_checked() {
    assert_eq!(checked_metric_add(2, 3, "explored-candidate").expect("fits"), 5);
    let error = checked_metric_add(u64::MAX, 1, "explored-candidate").expect_err("overflow");
    assert_eq!(error.message(), "explored-candidate metric overflowed");
}

#[test]
fn more_work_units_deal_a_superset_of_the_work() {
    let small = WorkPlan::new(29, 4, 2);
    let large = WorkPlan::new(29, 9, 3);

    let small_work: Vec<WorkUnit> = small.partitions.into_iter().flatten().collect();
    let large_work: Vec<WorkUnit> = large.partitions.into_iter().flatten().collect();

    assert_eq!(small_work.len(), 3);
    assert_eq!(large_work.len(), 8);
    assert!(small_work.iter().all(|work| large_work.contains(work)));
    assert_eq!(small.canonical, large.canonical);
}

#[test]
fn more_work_units_never_make_the_answer_worse() {
    let instance = mixed_instance();
    let objective = |units: usize| {
        let outcome = PortfolioBackend::new(units)
            .solve(&instance, &SolveRequest::new(10_000_000_000, 5, 2))
            .expect("portfolio");
        ObjectiveValue::from_summary(&validate_solution(&instance, outcome.solution()).expect("valid"))
    };
    let one = objective(1);
    let four = objective(4);
    let fourteen = objective(14);

    assert!(four.compare_to(&one) >= 0);
    assert!(fourteen.compare_to(&four) >= 0);
}

#[test]
fn publishing_in_any_order_gives_the_same_snapshot() {
    let instance = mixed_instance();
    let request = SolveRequest::new(10_000_000_000, 3, 1);
    let orders = [ItemOrder::Canonical, ItemOrder::Seeded(7), ItemOrder::Seeded(19)];
    let snapshot = |sequence: [usize; 3]| {
        let mut incumbent = Incumbent::new();
        for position in sequence {
            let outcome = solve_with_item_order(&instance, &request, orders[position]).expect("construction");
            incumbent.publish(&instance, position * 3, outcome).expect("publish");
        }
        incumbent.into_snapshot().expect("snapshot")
    };
    let forward = snapshot([0, 1, 2]);
    let backward = snapshot([2, 0, 1]);

    assert_eq!(forward.solution, backward.solution);
    assert_eq!(forward.explored_candidates, backward.explored_candidates);
    assert_eq!(forward.validated_candidates, 3);
    assert_eq!(backward.validated_candidates, 3);
    assert_eq!(forward.improvements, backward.improvements);
}
