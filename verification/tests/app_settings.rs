use boxpacker::app::{report_path, solve_instance, SearchSettings, NANOS_PER_SECOND};
use boxpacker::cli::{Cli, SearchPreset};
use boxpacker::geometry::{Length, LengthConversionError};
use boxpacker::solver::OptimalityStatus;
use boxpacker::validate::{build_instance, DimensionInput, PackingInstance, RecordInput};

fn dimension(scaled: u64) -> DimensionInput {
    DimensionInput {
        value_bits: (scaled as f64 / 10.0).to_bits(),
        converted: Length::from_scaled_units(scaled).ok_or(LengthConversionError::NonPositive),
    }
}

fn record(name: &str, sides: [u64; 3]) -> RecordInput {
    RecordInput {
        name: name.to_owned(),
        width: dimension(sides[0]),
        length: dimension(sides[1]),
        height: dimension(sides[2]),
    }
}

fn instance(containers: &[[u64; 3]], items: &[[u64; 3]]) -> PackingInstance {
    let containers: Vec<RecordInput> = containers
        .iter()
        .enumerate()
        .map(|(index, sides)| record(&format!("container {index}"), *sides))
        .collect();
    let items: Vec<RecordInput> = items
        .iter()
        .enumerate()
        .map(|(index, sides)| record(&format!("item {index}"), *sides))
        .collect();
    build_instance(&containers, &items).expect("test instance should validate")
}

fn cli(output: &str, preset: SearchPreset) -> Cli {
    Cli {
        input: "input.json".to_owned(),
        output: output.to_owned(),
        preset,
        time_limit: None,
        seed: 0,
        threads: 1,
    }
}

#[test]
fn presets_increase_only_time_and_fixed_work() {
    let fast = SearchSettings::for_preset(SearchPreset::Fast);
    let balanced = SearchSettings::for_preset(SearchPreset::Balanced);
    let thorough = SearchSettings::for_preset(SearchPreset::Thorough);

    assert!(fast.time_limit() < balanced.time_limit());
    assert!(balanced.time_limit() < thorough.time_limit());
    assert!(fast.work_units() < balanced.work_units());
    assert!(balanced.work_units() < thorough.work_units());
}

#[test]
fn presets_have_the_documented_deadlines_and_work() {
    let fast = SearchSettings::for_preset(SearchPreset::Fast);
    let balanced = SearchSettings::for_preset(SearchPreset::Balanced);
    let thorough = SearchSettings::for_preset(SearchPreset::Thorough);

    assert_eq!((fast.time_limit(), fast.work_units()), (NANOS_PER_SECOND, 1));
    assert_eq!((balanced.time_limit(), balanced.work_units()), (10 * NANOS_PER_SECOND, 8));
    assert_eq!((thorough.time_limit(), thorough.work_units()), (30 * NANOS_PER_SECOND, 14));
    assert_eq!(SearchPreset::default(), SearchPreset::Balanced);
}

#[test]
fn report_path_sits_beside_the_json_output() {
    assert_eq!(
        report_path(&cli("results/packing.json", SearchPreset::Fast)),
        Some("results/packing.html".to_owned())
    );
    assert_eq!(report_path(&cli("results/packing.html", SearchPreset::Fast)), None);
}

#[test]
fn solving_stage_returns_a_validated_heuristic_solution() {
    let instance = instance(&[[100, 100, 100]], &[[37, 100, 100], [63, 100, 100]]);
    let (outcome, summary) =
        solve_instance(&instance, &cli("out.json", SearchPreset::Fast)).expect("instance should solve");

    assert_eq!(summary.placed_item_count(), 2);
    assert_eq!(summary.unplaced_item_count(), 0);
    assert_eq!(outcome.optimality(), OptimalityStatus::Heuristic);
    assert_eq!(outcome.metrics().validated_candidates(), 1);
}

#[test]
fn fast_run_counts_the_residual_repair_as_a_second_candidate() {
    let instance = instance(&[[100, 100, 100]], &[[100, 100, 100], [10, 10, 10]]);
    let (outcome, summary) =
        solve_instance(&instance, &cli("out.json", SearchPreset::Fast)).expect("instance should solve");

    assert_eq!(summary.placed_item_count(), 1);
    assert_eq!(summary.unplaced_item_count(), 1);
    assert_eq!(outcome.metrics().validated_candidates(), 2);
    assert_eq!(outcome.optimality(), OptimalityStatus::Heuristic);
}
