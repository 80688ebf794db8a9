use everybody_codes::common::{InvalidPart, Part};

#[test]
fn default_input_path_with_leading_zeroes() {
    assert_eq!("notes/q06p02", Part::Two.default_input_path(6));
}

#[test]
fn default_input_path_without_leading_zeroes() {
    assert_eq!("notes/q10p03", Part::Three.default_input_path(10));
}

#[test]
fn default_input_path_keeps_wide_quest_numbers() {
    assert_eq!("notes/q123p01", Part::One.default_input_path(123));
    assert_eq!("notes/q00p01", Part::One.default_input_path(0));
}

#[test]
fn part_numbers_run_from_one_to_three() {
    assert_eq!(1, usize::from(Part::One));
    assert_eq!(2, usize::from(Part::Two));
    assert_eq!(3, usize::from(Part::Three));
}

#[test]
fn part_from_number() {
    assert_eq!(Ok(Part::One), Part::try_from(1));
    assert_eq!(Ok(Part::Two), Part::try_from(2));
    assert_eq!(Ok(Part::Three), Part::try_from(3));
}

#[test]
fn part_from_number_out_of_range() {
    assert_eq!(Err(InvalidPart { number: 0 }), Part::try_from(0));
    assert_eq!(Err(InvalidPart { number: 4 }), Part::try_from(4));
    assert_eq!(Err(InvalidPart { number: usize::MAX }), Part::try_from(usize::MAX));
}

#[test]
fn part_number_round_trip() {
    for part in [Part::One, Part::Two, Part::Three] {
        assert_eq!(Ok(part), Part::try_from(usize::from(part)));
    }
}
