use boxpacker::geometry::{Length, LengthConversionError, MAX_EXACT_SCALED_LENGTH};
use boxpacker::validate::{
    build_instance, DimensionField, DimensionInput, InputSection, InputValidationError, RecordInput,
};

fn dimension(scaled: u64) -> DimensionInput {
    DimensionInput {
        value_bits: (scaled as f64 / 10.0).to_bits(),
        converted: Length::from_scaled_units(scaled).ok_or(LengthConversionError::NonPositive),
    }
}

fn failed(value: f64, reason: LengthConversionError) -> DimensionInput {
    DimensionInput { value_bits: value.to_bits(), converted: Err(reason) }
}

fn record(name: &str, width: DimensionInput, length: DimensionInput, height: DimensionInput) -> RecordInput {
    RecordInput { name: name.to_owned(), width, length, height }
}

#[test]
fn invalid_dimensions_are_all_reported_in_document_order() {
    let containers = vec![record("box", failed(0.0, LengthConversionError::NonPositive), dimension(10), failed(1.25, LengthConversionError::OverPrecision))];
    let items = vec![
        record("ok", dimension(10), dimension(10), dimension(10)),
        record("bad", dimension(10), failed(f64::NAN, LengthConversionError::NonFinite), dimension(10)),
    ];

    let errors = build_instance(&containers, &items).expect_err("invalid dimensions must be rejected");

    assert_eq!(
        errors.errors(),
        &[
            InputValidationError::InvalidDimension {
                section: InputSection::Containers,
                index: 0,
                field: DimensionField::Width,
                value_bits: 0.0_f64.to_bits(),
                reason: LengthConversionError::NonPositive,
            },
            InputValidationError::InvalidDimension {
                section: InputSection::Containers,
                index: 0,
                field: DimensionField::Height,
                value_bits: 1.25_f64.to_bits(),
                reason: LengthConversionError::OverPrecision,
            },
            InputValidationError::InvalidDimension {
                section: InputSection::Contents,
                index: 1,
                field: DimensionField::Length,
                value_bits: f64::NAN.to_bits(),
                reason: LengthConversionError::NonFinite,
            },
        ]
    );
    assert_eq!(InputSection::Contents.field_name(), "contents");
    assert_eq!(DimensionField::Length.field_name(), "length");
    assert_eq!(LengthConversionError::NonFinite.message(), "must be finite");
}

#[test]
fn unrepresentable_volumes_are_rejected() {
    let big = || dimension(MAX_EXACT_SCALED_LENGTH);
    let errors = build_instance(&[record("huge", big(), big(), big())], &[])
        .expect_err("volume overflow must be rejected");

    assert_eq!(
        errors.errors(),
        &[InputValidationError::VolumeOverflow { section: InputSection::Containers, index: 0 }]
    );
}

#[test]
fn valid_records_keep_their_order_names_and_dimensions() {
    let instance = build_instance(
        &[record("c", dimension(100), dimension(80), dimension(60))],
        &[record("a", dimension(1), dimension(2), dimension(3)), record("b", dimension(4), dimension(5), dimension(6))],
    )
    .expect("valid input");

    assert_eq!(instance.containers()[0].name(), "c");
    assert_eq!(instance.containers()[0].dimensions().positive_sides(), (100, 80, 60));
    assert_eq!(instance.items()[1].id().index(), 1);
    assert_eq!(instance.items()[1].name(), "b");
    assert_eq!(instance.items()[0].dimensions().checked_volume(), Some(6));
}
