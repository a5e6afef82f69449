use boxpacker::geometry::{Coordinate, Dimensions, Length, MAX_EXACT_SCALED_LENGTH, SCALE};

fn length(scaled: u64) -> Length {
    Length::from_scaled_units(scaled).expect("positive test length")
}

fn rotation_key(dimensions: Dimensions) -> (u64, u64, u64) {
    (dimensions.width().get(), dimensions.length().get(), dimensions.height().get())
}

#[test]
fn scaled_volume_is_checked_instead_of_wrapping() {
    assert_eq!(Dimensions::new(length(10), length(20), length(30)).checked_volume(), Some(6_000));

    let maximum = length(MAX_EXACT_SCALED_LENGTH);
    assert_eq!(Dimensions::new(maximum, maximum, maximum).checked_volume(), None);
}

#[test]
fn largest_exact_scaled_integer_is_accepted() {
    assert_eq!(length(MAX_EXACT_SCALED_LENGTH).get(), MAX_EXACT_SCALED_LENGTH);
    assert_eq!(SCALE, 10);
    assert!(Length::from_scaled_units(0).is_none());
}

#[test]
fn rotations_are_exact_unique_and_deterministically_ordered() {
    let dimensions = Dimensions::new(length(10), length(20), length(30));
    let rotations = dimensions.unique_rotations();

    assert_eq!(rotations.len(), 6);
    assert!(rotations.windows(2).all(|pair| rotation_key(pair[0]) < rotation_key(pair[1])));
    assert!(rotations.iter().all(|rotation| dimensions.is_permutation_of(*rotation)));

    let cube = Dimensions::new(length(20), length(20), length(20));
    assert_eq!(cube.unique_rotations(), vec![cube]);
}

#[test]
fn bounded_rotation_properties_hold_for_varied_side_multiplicities() {
    let mut state = 0x7865_2d91_43ab_cdef_u64;

    for _case in 0..10_000 {
        let mut next_side = || {
            state = state.wrapping_add(0x9e37_79b9_7f4a_7c15).rotate_left(17) ^ 0xbf58_476d_1ce4_e5b9;
            1 + state % 50
        };
        let sides = [next_side(), next_side(), next_side()];
        let dimensions = Dimensions::new(length(sides[0]), length(sides[1]), length(sides[2]));
        let rotations = dimensions.unique_rotations();
        let distinct_side_count = {
            let mut distinct = sides;
            distinct.sort_unstable();
            if distinct[0] == distinct[2] {
                1
            } else if distinct[0] == distinct[1] || distinct[1] == distinct[2] {
                2
            } else {
                3
            }
        };
        let expected_rotation_count = match distinct_side_count {
            1 => 1,
            2 => 3,
            3 => 6,
            _ => unreachable!("three sides cannot have another distinct count"),
        };

        assert_eq!(rotations.len(), expected_rotation_count);
        assert!(rotations.windows(2).all(|pair| rotation_key(pair[0]) < rotation_key(pair[1])));
        assert!(rotations.iter().all(|rotation| dimensions.is_permutation_of(*rotation)));
    }
}

#[test]
fn permutations_and_sides_compare_exactly() {
    let a = Dimensions::new(length(1), length(2), length(3));
    let b = Dimensions::new(length(3), length(1), length(2));
    let c = Dimensions::new(length(3), length(1), length(1));

    assert!(a.is_permutation_of(b));
    assert!(!a.is_permutation_of(c));
    assert!(a.same_as(a));
    assert!(!a.same_as(b));
    assert_eq!(a.positive_sides(), (1, 2, 3));
    assert_eq!(Coordinate::from_scaled_units(u64::MAX).checked_add(length(1)), None);
    assert_eq!(Coordinate::from_scaled_units(5).checked_add(length(2)), Some(7));
}
