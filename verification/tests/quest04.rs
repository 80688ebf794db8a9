use everybody_codes::common::{Part, QuestError};
use everybody_codes::quests::quest04::{
    count_bidirectional_strikes, count_strikes, parse_nails, solve,
};

#[test]
fn quest04_solve_part_one_example() {
    assert_eq!("10", solve(Part::One, b"3\n4\n7\n8\n").unwrap());
}

#[test]
fn quest04_solve_part_three_example() {
    assert_eq!("8", solve(Part::Three, b"2\n4\n5\n6\n8\n").unwrap());
}

#[test]
fn solve_part_two_strikes_down_to_the_shortest() {
    assert_eq!("10", solve(Part::Two, b"3\n4\n7\n8\n").unwrap());
    assert_eq!("15", solve(Part::Two, b"2\n4\n5\n6\n8\n").unwrap());
}

#[test]
fn solve_part_three_puts_the_nails_in_order_first() {
    // In the order of the notes the middle nail would be 6, and the answer 9.
    assert_eq!("8", solve(Part::Three, b"8\n2\n6\n4\n5\n").unwrap());
}

#[test]
fn solve_part_three_with_an_even_number_of_nails() {
    // In ascending order 1, 2, 3, 10: the nail at index 2 is the level.
    assert_eq!("10", solve(Part::Three, b"10\n1\n3\n2\n").unwrap());
}

#[test]
fn solve_last_line_needs_no_newline() {
    assert_eq!("10", solve(Part::One, b"3\n4\n7\n8").unwrap());
}

#[test]
fn solve_accepts_carriage_returns_before_newlines() {
    assert_eq!("10", solve(Part::One, b"3\r\n4\r\n7\r\n8\r\n").unwrap());
    // Without a newline after it, a carriage return belongs to the number.
    assert_eq!(Err(QuestError::InvalidNumber), solve(Part::One, b"3\r\n4\r"));
}

#[test]
fn solve_single_nail_needs_no_strike() {
    assert_eq!("0", solve(Part::One, b"17\n").unwrap());
    assert_eq!("0", solve(Part::Three, b"17\n").unwrap());
}

#[test]
fn solve_accepts_signs_and_leading_zeros() {
    assert_eq!("10", solve(Part::One, b"+5\n-5\n").unwrap());
    assert_eq!("0", solve(Part::One, b"007\n7\n+7\n").unwrap());
    assert_eq!("0", solve(Part::One, b"-0\n0\n").unwrap());
}

#[test]
fn solve_without_nails() {
    assert_eq!(Err(QuestError::Empty), solve(Part::One, b""));
    assert_eq!(Err(QuestError::Empty), solve(Part::Two, b""));
    assert_eq!(Err(QuestError::Empty), solve(Part::Three, b""));
}

#[test]
fn solve_rejects_lines_that_are_no_numbers() {
    for notes in [
        &b"3\nx\n"[..],
        b"3\n\n4\n",
        b"\n",
        b"3 \n",
        b" 3\n",
        b"+\n",
        b"-\n",
        b"3-\n",
        b"--3\n",
        b"0x10\n",
        b"1.5\n",
        b"2147483648\n",
        b"-2147483649\n",
        b"99999999999999999999999999999\n",
    ] {
        assert_eq!(Err(QuestError::InvalidNumber), solve(Part::One, notes));
        assert_eq!(Err(QuestError::InvalidNumber), solve(Part::Three, notes));
    }
}

#[test]
fn solve_reports_more_strikes_than_fit() {
    let notes = b"2147483647\n-2147483648\n";
    assert_eq!(Err(QuestError::Overflow), solve(Part::One, notes));
    assert_eq!(Err(QuestError::Overflow), solve(Part::Three, notes));
    assert_eq!("2147483647", solve(Part::One, b"2147483647\n0\n").unwrap());
}

#[test]
fn parse_nails_reads_one_length_from_each_line() {
    assert_eq!(Some(vec![3, 4, 7, 8]), parse_nails(b"3\n4\n7\n8\n"));
    assert_eq!(Some(vec![]), parse_nails(b""));
    assert_eq!(
        Some(vec![i32::MAX, i32::MIN, 0, 12]),
        parse_nails(b"2147483647\n-2147483648\n-0\n+012")
    );
    assert_eq!(None, parse_nails(b"3\nfour\n"));
    assert_eq!(None, parse_nails(b"3\n4\n\n"));
}

#[test]
fn count_strikes_down_to_the_shortest() {
    assert_eq!(Ok(10), count_strikes(&vec![3, 4, 7, 8]));
    assert_eq!(Ok(10), count_strikes(&vec![8, 3, 7, 4]));
    assert_eq!(Ok(0), count_strikes(&vec![5, 5, 5]));
    assert_eq!(Ok(7), count_strikes(&vec![-1, -4, 0]));
    assert_eq!(Err(QuestError::Empty), count_strikes(&vec![]));
    assert_eq!(Err(QuestError::Overflow), count_strikes(&vec![i32::MIN, i32::MAX]));
    // The total of the lengths does not fit, the number of strikes does.
    assert_eq!(Ok(2), count_strikes(&vec![i32::MAX, i32::MAX, i32::MAX - 1]));
}

#[test]
fn count_bidirectional_strikes_to_the_middle_nail() {
    assert_eq!(Ok(8), count_bidirectional_strikes(vec![2, 4, 5, 6, 8]));
    assert_eq!(Ok(8), count_bidirectional_strikes(vec![6, 8, 2, 5, 4]));
    assert_eq!(Ok(10), count_bidirectional_strikes(vec![10, 1, 3, 2]));
    assert_eq!(Ok(5), count_bidirectional_strikes(vec![0, 5]));
    assert_eq!(Ok(0), count_bidirectional_strikes(vec![-3]));
    assert_eq!(Err(QuestError::Empty), count_bidirectional_strikes(vec![]));
    assert_eq!(
        Err(QuestError::Overflow),
        count_bidirectional_strikes(vec![i32::MIN, i32::MAX])
    );
}
