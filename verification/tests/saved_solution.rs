use boxpacker::compatibility::{
    adapt_saved_solution, CoordinateInput, SavedContainerInput, SavedField, SavedLocation, SavedOutputInput,
    SavedPlacementInput, SavedSolutionAdapterError,
};
use boxpacker::geometry::{Coordinate, CoordinateConversionError, Length, LengthConversionError};
use boxpacker::validate::{build_instance, validate_solution, DimensionInput, PackingInstance, RecordInput};

fn dimension(scaled: u64) -> DimensionInput {
    DimensionInput {
        value_bits: (scaled as f64 / 10.0).to_bits(),
        converted: Length::from_scaled_units(scaled).ok_or(LengthConversionError::NonPositive),
    }
}

fn coordinate(scaled: u64) -> CoordinateInput {
    CoordinateInput { value_bits: (scaled as f64 / 10.0).to_bits(), converted: Ok(Coordinate::from_scaled_units(scaled)) }
}

fn record(name: &str, sides: [u64; 3]) -> RecordInput {
    RecordInput {
        name: name.to_owned(),
        width: dimension(sides[0]),
        length: dimension(sides[1]),
        height: dimension(sides[2]),
    }
}

fn placed(name: &str, origin: [u64; 3], sides: [u64; 3]) -> SavedPlacementInput {
    SavedPlacementInput {
        name: name.to_owned(),
        x: coordinate(origin[0]),
        y: coordinate(origin[1]),
        z: coordinate(origin[2]),
        w: dimension(sides[0]),
        l: dimension(sides[1]),
        h: dimension(sides[2]),
    }
}

fn container(name: &str, sides: [u64; 3], placed_items: Vec<SavedPlacementInput>) -> SavedContainerInput {
    SavedContainerInput {
        name: name.to_owned(),
        width: dimension(sides[0]),
        length: dimension(sides[1]),
        height: dimension(sides[2]),
        placed_items,
    }
}

fn duplicate_instance() -> PackingInstance {
    build_instance(
        &[record("duplicate container", [100, 100, 100]), record("duplicate container", [200, 200, 200])],
        &[record("duplicate item", [10, 20, 30]), record("duplicate item", [40, 50, 60])],
    )
    .expect("duplicate names should validate")
}

fn duplicate_output() -> SavedOutputInput {
    SavedOutputInput {
        containers: vec![
            container("duplicate container", [200, 200, 200], vec![placed("duplicate item", [0, 0, 0], [60, 40, 50])]),
            container("duplicate container", [100, 100, 100], Vec::new()),
        ],
        unplaced_items: vec![record("duplicate item", [10, 20, 30])],
    }
}

#[test]
fn duplicate_names_are_resolved_by_dimensions_and_stable_input_order() {
    let instance = duplicate_instance();

    let saved = adapt_saved_solution(&instance, &duplicate_output()).expect("dimensions should disambiguate duplicate display names");

    assert_eq!(saved.containers()[0].container_id().index(), 1);
    assert_eq!(saved.containers()[0].placed_items()[0].item_id().index(), 1);
    assert_eq!(saved.containers()[1].container_id().index(), 0);
    assert_eq!(saved.unplaced_items()[0].index(), 0);
}

#[test]
fn adapted_saved_solution_converts_to_a_validatable_solution() {
    let instance = duplicate_instance();
    let saved = adapt_saved_solution(&instance, &duplicate_output()).expect("adapts");
    let solution = saved.to_solution();
    let summary = validate_solution(&instance, &solution).expect("saved layout should validate");

    assert_eq!(solution.placements().len(), 1);
    assert_eq!(solution.placements()[0].container_id().index(), 1);
    assert_eq!(summary.placed_item_count(), 1);
    assert_eq!(summary.unplaced_item_count(), 1);
}

#[test]
fn saved_coordinates_are_converted_with_field_specific_errors() {
    let instance = duplicate_instance();
    let mut output = duplicate_output();
    output.containers[0].placed_items[0].x =
        CoordinateInput { value_bits: 0.25_f64.to_bits(), converted: Err(CoordinateConversionError::OverPrecision) };

    let error = adapt_saved_solution(&instance, &output).expect_err("over-precision saved coordinates should be rejected");

    assert_eq!(
        error,
        SavedSolutionAdapterError::InvalidCoordinate {
            location: SavedLocation::PlacedItem(0, 0),
            field: SavedField::X,
            value_bits: 0.25_f64.to_bits(),
            reason: CoordinateConversionError::OverPrecision,
        }
    );
    assert_eq!(SavedField::X.field_name(), "x");
    assert_eq!(CoordinateConversionError::OverPrecision.message(), "must use no more than one decimal place");
}

#[test]
fn saved_solution_must_account_for_every_input_item_once() {
    let instance = duplicate_instance();
    let mut output = duplicate_output();
    output.unplaced_items.pop();

    let error = adapt_saved_solution(&instance, &output).expect_err("a saved solution that omits an item should not adapt");

    assert!(matches!(error, SavedSolutionAdapterError::MissingItems(ref ids) if ids.len() == 1 && ids[0].index() == 0));
}

#[test]
fn unknown_names_and_reused_records_are_reported() {
    let instance = duplicate_instance();
    let mut output = duplicate_output();
    output.containers[1].name = "elsewhere".to_owned();
    assert_eq!(
        adapt_saved_solution(&instance, &output).expect_err("unknown container"),
        SavedSolutionAdapterError::UnknownContainer { index: 1, name: "elsewhere".to_owned() }
    );

    let mut output = duplicate_output();
    output.unplaced_items.push(record("duplicate item", [10, 20, 30]));
    assert_eq!(
        adapt_saved_solution(&instance, &output).expect_err("no third duplicate item"),
        SavedSolutionAdapterError::UnknownUnplacedItem { index: 1, name: "duplicate item".to_owned() }
    );

    let mut output = duplicate_output();
    output.containers[0].width =
        DimensionInput { value_bits: 0.0_f64.to_bits(), converted: Err(LengthConversionError::NonPositive) };
    assert_eq!(
        adapt_saved_solution(&instance, &output).expect_err("bad width"),
        SavedSolutionAdapterError::InvalidDimension {
            location: SavedLocation::Container(0),
            field: SavedField::Width,
            value_bits: 0.0_f64.to_bits(),
            reason: LengthConversionError::NonPositive,
        }
    );
}

#[test]
fn the_first_failure_in_document_order_is_reported() {
    let instance = duplicate_instance();
    let mut output = duplicate_output();
    output.containers[0].placed_items.push(placed("nowhere", [0, 0, 0], [10, 20, 30]));
    output.containers[1].name = "elsewhere".to_owned();
    output.unplaced_items[0].height =
        DimensionInput { value_bits: 0.0_f64.to_bits(), converted: Err(LengthConversionError::NonPositive) };
    assert_eq!(
        adapt_saved_solution(&instance, &output).expect_err("three failures"),
        SavedSolutionAdapterError::UnknownPlacedItem { container_index: 0, item_index: 1, name: "nowhere".to_owned() }
    );

    let mut output = duplicate_output();
    output.unplaced_items.clear();
    output.containers[1].placed_items.push(placed("duplicate item", [0, 0, 0], [10, 20, 30]));
    output.containers[1].placed_items.push(placed("duplicate item", [0, 0, 0], [10, 20, 30]));
    assert_eq!(
        adapt_saved_solution(&instance, &output).expect_err("a name used more often than the input has it"),
        SavedSolutionAdapterError::UnknownPlacedItem {
            container_index: 1,
            item_index: 1,
            name: "duplicate item".to_owned()
        }
    );
}
