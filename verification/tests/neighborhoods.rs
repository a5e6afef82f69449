use std::collections::BTreeSet;

use boxpacker::geometry::{Length, LengthConversionError};
use boxpacker::solver::constructive::{solve_with_plan, ConstructionPlan};
use boxpacker::solver::improve::{neighborhood_plan, seeded_plan, NeighborhoodKind, SplitMix64};
use boxpacker::solver::SolveRequest;
use boxpacker::validate::{build_instance, DimensionInput, ItemId, PackingInstance, RecordInput};

fn dimension(scaled: u64) -> DimensionInput {
    DimensionInput {
        value_bits: (scaled as f64 / 10.0).to_bits(),
        converted: Length::from_scaled_units(scaled).ok_or(LengthConversionError::NonPositive),
    }
}

fn record(name: &str, sides: [u64; 3]) -> RecordInput {
    RecordInput {
        name: name.to_owned(),
        width: dimension(sides[0]),
        length: dimension(sides[1]),
        height: dimension(sides[2]),
    }
}

fn instance() -> PackingInstance {
    let items: Vec<RecordInput> =
        (0..12).map(|index| record(&format!("item {index}"), [10 + 10 * (index % 3), 10, 10])).collect();
    build_instance(&[record("container", [100, 100, 100])], &items).expect("neighborhood fixture should validate")
}

#[test]
fn every_neighborhood_is_reproducible_and_preserves_the_item_permutation() {
    let instance = instance();
    let expected: BTreeSet<ItemId> = ConstructionPlan::canonical(&instance).item_ids.into_iter().collect();

    for kind in NeighborhoodKind::all() {
        let first = neighborhood_plan(&instance, kind, 37);
        let second = neighborhood_plan(&instance, kind, 37);
        let actual: BTreeSet<ItemId> = first.item_ids.iter().copied().collect();

        assert_eq!(first, second, "{kind:?}");
        assert_eq!(actual, expected, "{kind:?}");
        assert_eq!(first.item_ids.len(), expected.len(), "{kind:?}");
    }
}

#[test]
fn order_neighborhoods_change_order_and_rotation_changes_preference() {
    let instance = instance();
    let canonical = ConstructionPlan::canonical(&instance);

    for kind in [
        NeighborhoodKind::Move,
        NeighborhoodKind::Swap,
        NeighborhoodKind::EjectionChain,
        NeighborhoodKind::RuinRecreate,
    ] {
        let candidate = neighborhood_plan(&instance, kind, 53);
        assert_ne!(candidate.item_ids, canonical.item_ids, "{kind:?}");
        assert!(candidate.forced_rotations.is_empty(), "{kind:?}");
    }

    let rotation = neighborhood_plan(&instance, NeighborhoodKind::Rotation, 53);
    assert_eq!(rotation.item_ids, canonical.item_ids);
    assert_eq!(rotation.forced_rotations.len(), 1);
    assert!(rotation.forced_rotations.iter().all(|(_, index)| (1..=5).contains(index)));
}

#[test]
fn rotation_neighborhood_forces_the_selected_exact_orientation() {
    let instance =
        build_instance(&[record("container", [100, 100, 100])], &[record("rotatable", [10, 20, 30])])
            .expect("rotation fixture should validate");
    let plan = neighborhood_plan(&instance, NeighborhoodKind::Rotation, 71);
    let item_id = instance.items()[0].id();
    let rotation_index = plan.forced_rotation(item_id).expect("the only item is forced");
    let rotations = instance.items()[0].dimensions().unique_rotations();
    let request = SolveRequest::new(1_000_000_000, 71, 1);

    let outcome = solve_with_plan(&instance, &request, &plan).expect("rotation plan should solve");
    let placement = outcome.solution().placements().first().copied().expect("rotated item should be placed");

    assert_eq!(placement.bounds().dimensions(), rotations[rotation_index % rotations.len()]);
}

#[test]
fn generator_matches_the_splitmix_reference() {
    // Reference SplitMix64 outputs for seed zero.
    let mut generator = SplitMix64::new(0);
    assert_eq!(generator.next(), 0xe220_a839_7b1d_cdaf);
    assert_eq!(generator.next(), 0x6e78_9e6a_a1b9_65f4);
    let mut indices = SplitMix64::new(5);
    for _ in 0..100 {
        assert!(indices.index(7) < 7);
    }
}

#[test]
fn seeded_plans_cycle_through_the_shuffle_and_the_neighborhoods() {
    let instance = instance();
    let canonical = ConstructionPlan::canonical(&instance);

    let rotation = seeded_plan(&instance, 6 * 5 + 3);
    assert_eq!(rotation, neighborhood_plan(&instance, NeighborhoodKind::Rotation, 33));
    let moved = seeded_plan(&instance, 6 * 4 + 1);
    assert_eq!(moved, neighborhood_plan(&instance, NeighborhoodKind::Move, 25));
    let shuffled = seeded_plan(&instance, 12);
    let items: BTreeSet<ItemId> = shuffled.item_ids.iter().copied().collect();
    let expected: BTreeSet<ItemId> = canonical.item_ids.iter().copied().collect();
    assert_eq!(items, expected);
    assert!(shuffled.forced_rotations.is_empty());
}
