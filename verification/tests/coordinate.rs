use sonny_sorter::coordinate::{Coordinate, PathError};

#[test]
fn get_lat_lon_grid_expected() {
    let lat_long = Coordinate::parse("N78E030");
    assert_eq!("+70+030", lat_long.unwrap().to_grid_position());

    let lat_long = Coordinate::parse("N63W023");
    assert_eq!("+60-030", lat_long.unwrap().to_grid_position());

    let lat_long = Coordinate::parse("N47E011");
    assert_eq!("+40+010", lat_long.unwrap().to_grid_position());
}

#[test]
fn latlong_from_string_expected() {
    assert!(Coordinate::new(43, -20) == Coordinate::parse("N43W020").unwrap());
}

#[test]
fn south_west_coordinate_floors_to_more_negative_cell() {
    assert_eq!("-10-010", Coordinate::parse("S03W003").unwrap().to_grid_position());
}

#[test]
fn zero_coordinate_buckets_to_positive_zero_cell() {
    assert_eq!("+00+000", Coordinate::parse("N00E000").unwrap().to_grid_position());
}

#[test]
fn neighbours_share_cell_with_its_south_west_corner() {
    assert_eq!("+70+030", Coordinate::parse("N78E030").unwrap().to_grid_position());
    assert_eq!("+70+030", Coordinate::parse("N79E031").unwrap().to_grid_position());
    assert_eq!("+70+030", Coordinate::parse("N70E030").unwrap().to_grid_position());
}

#[test]
fn six_character_stem_is_rejected_with_its_length() {
    match Coordinate::parse("N78E03") {
        Err(PathError::InvalidLength(n)) => assert_eq!(n, 6),
        other => panic!("expected InvalidLength, got {:?}", other),
    }
}

#[test]
fn non_digit_magnitude_is_rejected_with_the_stem() {
    match Coordinate::parse("N7AE030") {
        Err(PathError::InvalidFileName(name)) => assert_eq!(name, "N7AE030"),
        other => panic!("expected InvalidFileName, got {:?}", other),
    }
}

#[test]
fn longitude_magnitude_over_signed_byte_is_rejected() {
    match Coordinate::parse("N00E150") {
        Err(PathError::InvalidFileName(name)) => assert_eq!(name, "N00E150"),
        other => panic!("expected InvalidFileName, got {:?}", other),
    }
}

#[test]
fn lowercase_stem_is_rejected() {
    assert!(Coordinate::parse("n78e030").is_err());
}

#[test]
fn bad_hemisphere_letter_is_rejected_with_the_letter() {
    match Coordinate::parse("X78E030") {
        Err(PathError::InvalidHemisphere(c)) => assert_eq!(c, 'X'),
        other => panic!("expected InvalidHemisphere, got {:?}", other),
    }
    match Coordinate::parse("N78X030") {
        Err(PathError::InvalidHemisphere(c)) => assert_eq!(c, 'X'),
        other => panic!("expected InvalidHemisphere, got {:?}", other),
    }
}

#[test]
fn swapped_hemisphere_slots_still_parse() {
    assert!(Coordinate::new(30, 78) == Coordinate::parse("E30N078").unwrap());
}

#[test]
fn as_direction_applies_the_sign_rule() {
    assert_eq!(Coordinate::as_direction('N', 43), 43);
    assert_eq!(Coordinate::as_direction('S', 43), -43);
    assert_eq!(Coordinate::as_direction('E', 11), 11);
    assert_eq!(Coordinate::as_direction('W', 11), -11);
}

#[test]
fn parse_coordinate_reads_unsigned_decimals() {
    assert_eq!(sonny_sorter::coordinate::parse_coordinate("78", "N78E030").unwrap(), 78);
    assert_eq!(sonny_sorter::coordinate::parse_coordinate("030", "N78E030").unwrap(), 30);
    assert_eq!(sonny_sorter::coordinate::parse_coordinate("127", "N00E127").unwrap(), 127);
}

#[test]
fn parse_coordinate_rejects_signs_blanks_and_overflow() {
    for digits in ["-5", "+5", " 5", "", "200", "7a"] {
        match sonny_sorter::coordinate::parse_coordinate(digits, "stem") {
            Err(PathError::InvalidFileName(name)) => assert_eq!(name, "stem"),
            other => panic!("expected InvalidFileName for {:?}, got {:?}", digits, other),
        }
    }
}

#[test]
fn messages_name_the_offender() {
    assert_eq!(
        PathError::InvalidLength(6).message(),
        "Invalid filename length, expected length of 7 but got 6"
    );
    assert_eq!(
        PathError::InvalidFileName(String::from("N7AE030")).message(),
        "Invalid filename format, N7AE030 does not match expected format"
    );
    assert_eq!(
        PathError::InvalidHemisphere('X').message(),
        "Invalid hemisphere letter X specified"
    );
}

#[test]
fn decimal_renderings_are_exact() {
    assert_eq!(sonny_sorter::text::decimal_string(0), "0");
    assert_eq!(sonny_sorter::text::decimal_string(1234), "1234");
    assert_eq!(sonny_sorter::text::padded_decimal_string(7, 3), "007");
    assert_eq!(sonny_sorter::text::padded_decimal_string(7, 2), "07");
    assert_eq!(sonny_sorter::text::padded_decimal_string(130, 2), "130");
}
