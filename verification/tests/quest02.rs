use everybody_codes::common::{Part, QuestError};
use everybody_codes::quests::quest02::grid::{
    count_matching_chars_in_grid, directional_index, grid_rows, Direction,
};
use everybody_codes::quests::quest02::{
    all_ascii, count_matching_chars, count_words, parse_input, solve,
};

fn words(list: &[&str]) -> Vec<Vec<u8>> {
    list.iter().map(|word| word.as_bytes().to_vec()).collect()
}

#[test]
fn quest02_solve_part_one_example() {
    let input = "WORDS:THE,OWE,MES,ROD,HER\n\nAWAKEN THE POWER ADORNED WITH THE FLAMES BRIGHT IRE\n";
    assert_eq!("4", solve(Part::One, input.as_bytes()).unwrap());
}

#[test]
fn quest02_solve_part_two_example() {
    let input = "WORDS:THE,OWE,MES,ROD,HER,QAQ\n\nAWAKEN THE POWE ADORNED WITH THE FLAMES BRIGHT IRE\nTHE FLAME SHIELDED THE HEART OF THE KINGS\nPOWE PO WER P OWE R\nTHERE IS THE END\nQAQAQ\n";
    assert_eq!("42", solve(Part::Two, input.as_bytes()).unwrap());
}

#[test]
fn quest02_solve_part_three_example() {
    let input = "WORDS:THE,OWE,MES,ROD,RODEO\n\nHELWORLT\nENIGWDXL\nTRODEOAL\n";
    assert_eq!("10", solve(Part::Three, input.as_bytes()).unwrap());
}

#[test]
fn solve_needs_the_list_of_words() {
    for part in [Part::One, Part::Two, Part::Three] {
        assert_eq!(Err(QuestError::MissingWords), solve(part, b""));
        assert_eq!(Err(QuestError::MissingWords), solve(part, b"WORD:THE\n\nTHE\n"));
        assert_eq!(Err(QuestError::MissingWords), solve(part, b"words:THE\n\nTHE\n"));
        assert_eq!(Err(QuestError::MissingWords), solve(part, b"\nWORDS:THE\n\nTHE\n"));
        assert_eq!(Err(QuestError::MissingWords), solve(part, b"WORD\nS:THE\n\nTHE\n"));
    }
}

#[test]
fn solve_needs_a_blank_line_after_the_words() {
    for part in [Part::One, Part::Two, Part::Three] {
        assert_eq!(Err(QuestError::MissingBlankLine), solve(part, b"WORDS:THE"));
        assert_eq!(Err(QuestError::MissingBlankLine), solve(part, b"WORDS:THE\n"));
        assert_eq!(Err(QuestError::MissingBlankLine), solve(part, b"WORDS:THE\nTHE\n"));
        assert_eq!(Err(QuestError::MissingBlankLine), solve(part, b"WORDS:THE\n \nTHE\n"));
        assert_eq!(Err(QuestError::MissingBlankLine), solve(part, b"WORDS:THE\n\r\nTHE\n"));
    }
}

#[test]
fn solve_needs_ascii_notes() {
    let notes = "WORDS:THE\n\nTH\u{c9} THE\n";
    for part in [Part::One, Part::Two, Part::Three] {
        assert_eq!(Err(QuestError::NotAscii), solve(part, notes.as_bytes()));
        assert_eq!(Err(QuestError::NotAscii), solve(part, &[200]));
    }
}

#[test]
fn solve_part_three_needs_a_row() {
    assert_eq!(Err(QuestError::Empty), solve(Part::Three, b"WORDS:THE\n\n"));
    assert_eq!(Err(QuestError::Empty), solve(Part::Three, b"WORDS:THE\n\n \n\t\n"));
    assert_eq!("0", solve(Part::One, b"WORDS:THE\n\n").unwrap());
    assert_eq!("0", solve(Part::Two, b"WORDS:THE\n\n").unwrap());
}

#[test]
fn all_ascii_looks_at_every_symbol() {
    assert!(all_ascii(b""));
    assert!(all_ascii(b"plain text\n\x7f"));
    assert!(!all_ascii(&[65, 66, 128]));
    assert!(!all_ascii(&[255, 65]));
}

#[test]
fn parse_input_splits_words_and_inscription() {
    let (wordlist, inscription) = parse_input(b"WORDS:THE,OWE\n\nSOME TEXT\nMORE\n").unwrap();
    assert_eq!(words(&["THE", "OWE"]), wordlist);
    assert_eq!(b"SOME TEXT\nMORE\n".to_vec(), inscription);
}

#[test]
fn parse_input_keeps_empty_words() {
    let (wordlist, _) = parse_input(b"WORDS:\n\n").unwrap();
    assert_eq!(words(&[""]), wordlist);
    let (wordlist, _) = parse_input(b"WORDS:A,,B,\n\n").unwrap();
    assert_eq!(words(&["A", "", "B", ""]), wordlist);
}

#[test]
fn parse_input_trims_the_end_of_the_list_only() {
    let (wordlist, inscription) = parse_input(b"WORDS: A ,B \t\r\n\n X \n").unwrap();
    assert_eq!(words(&[" A ", "B"]), wordlist);
    assert_eq!(b" X \n".to_vec(), inscription);
}

#[test]
fn parse_input_takes_one_last_symbol_for_the_blank_line() {
    let (wordlist, inscription) = parse_input(b"WORDS:A\nx").unwrap();
    assert_eq!(words(&["A"]), wordlist);
    assert_eq!(Vec::<u8>::new(), inscription);
}

#[test]
fn parse_input_errors() {
    assert_eq!(Err(QuestError::MissingWords), parse_input(b"THE,OWE\n\nTEXT"));
    assert_eq!(Err(QuestError::MissingBlankLine), parse_input(b"WORDS:THE,OWE\nTEXT\n"));
}

#[test]
fn count_words_counts_every_occurrence() {
    let list = words(&["THE", "OWE", "MES", "ROD", "HER"]);
    let text = b"AWAKEN THE POWER ADORNED WITH THE FLAMES BRIGHT IRE";
    assert_eq!(Some(4), count_words(&list, text));
    assert_eq!(Some(3), count_words(&list, b"THE FLAME SHIELDED THE HEART OF THE KINGS"));
    assert_eq!(Some(2), count_words(&list, b"POWE PO WER P OWE R"));
    assert_eq!(Some(3), count_words(&list, b"THERE IS THE END"));
}

#[test]
fn count_words_counts_overlapping_and_repeated_words() {
    assert_eq!(Some(3), count_words(&words(&["AA"]), b"AAAA"));
    assert_eq!(Some(6), count_words(&words(&["AA", "AA"]), b"AAAA"));
    assert_eq!(Some(0), count_words(&words(&["AAAAA"]), b"AAAA"));
    assert_eq!(Some(0), count_words(&words(&[]), b"AAAA"));
    assert_eq!(Some(0), count_words(&words(&["A"]), b""));
}

#[test]
fn count_words_finds_the_empty_word_at_every_symbol() {
    assert_eq!(Some(4), count_words(&words(&[""]), b"AAAA"));
    assert_eq!(Some(0), count_words(&words(&[""]), b""));
}

#[test]
fn count_matching_chars_counts_each_symbol_once() {
    let list = words(&["THE", "OWE", "MES", "ROD", "HER", "QAQ"]);
    assert_eq!(
        15,
        count_matching_chars(&list, b"AWAKEN THE POWE ADORNED WITH THE FLAMES BRIGHT IRE")
    );
    assert_eq!(9, count_matching_chars(&list, b"THE FLAME SHIELDED THE HEART OF THE KINGS"));
    assert_eq!(6, count_matching_chars(&list, b"POWE PO WER P OWE R"));
    assert_eq!(7, count_matching_chars(&list, b"THERE IS THE END"));
    assert_eq!(5, count_matching_chars(&list, b"QAQAQ"));
}

#[test]
fn count_matching_chars_reads_both_ways() {
    assert_eq!(2, count_matching_chars(&words(&["AB"]), b"BA"));
    assert_eq!(4, count_matching_chars(&words(&["AB"]), b"BAAB"));
    assert_eq!(3, count_matching_chars(&words(&["ABC"]), b"xCBAx"));
    assert_eq!(0, count_matching_chars(&words(&["ABC"]), b"ACB"));
    assert_eq!(0, count_matching_chars(&words(&[""]), b"ACB"));
    assert_eq!(0, count_matching_chars(&words(&["A"]), b""));
}

#[test]
fn grid_rows_trims_the_inscription_and_splits_it_into_lines() {
    assert_eq!(words(&["AB", "CD"]), grid_rows(b"AB\nCD\n"));
    assert_eq!(words(&["AB", "CD"]), grid_rows(b"\n \t\x0b\x0cAB\r\nCD\r\n\n  "));
    assert_eq!(words(&["AB", "", " C"]), grid_rows(b"AB\n\n C"));
    assert_eq!(words(&[]), grid_rows(b""));
    assert_eq!(words(&[]), grid_rows(b" \n\n"));
    assert_eq!(words(&["A\rB"]), grid_rows(b"A\rB"));
}

#[test]
fn directional_index_wraps_in_rows_only() {
    // A grid 5 wide and 3 high.
    assert_eq!(Some((2, 1)), directional_index(2, 1, Direction::Up, 0, 5, 3));
    assert_eq!(Some((2, 0)), directional_index(2, 1, Direction::Up, 1, 5, 3));
    assert_eq!(None, directional_index(2, 1, Direction::Up, 2, 5, 3));
    assert_eq!(Some((2, 2)), directional_index(2, 1, Direction::Down, 1, 5, 3));
    assert_eq!(None, directional_index(2, 1, Direction::Down, 2, 5, 3));
    assert_eq!(None, directional_index(2, 1, Direction::Down, usize::MAX, 5, 3));
    assert_eq!(Some((4, 1)), directional_index(2, 1, Direction::Right, 2, 5, 3));
    assert_eq!(Some((0, 1)), directional_index(2, 1, Direction::Right, 3, 5, 3));
    assert_eq!(Some((2, 1)), directional_index(2, 1, Direction::Right, 10, 5, 3));
    assert_eq!(Some((0, 1)), directional_index(2, 1, Direction::Left, 2, 5, 3));
    assert_eq!(Some((4, 1)), directional_index(2, 1, Direction::Left, 3, 5, 3));
    assert_eq!(Some((1, 1)), directional_index(2, 1, Direction::Left, 11, 5, 3));
    assert_eq!(Some((0, 0)), directional_index(0, 0, Direction::Left, 7, 1, 1));
}

#[test]
fn count_in_grid_example() {
    let rows = words(&["HELWORLT", "ENIGWDXL", "TRODEOAL"]);
    let list = words(&["THE", "OWE", "MES", "ROD", "RODEO"]);
    assert_eq!(Some(10), count_matching_chars_in_grid(&list, &rows));
}

#[test]
fn count_in_grid_runs_around_the_ends_of_a_row() {
    assert_eq!(Some(3), count_matching_chars_in_grid(&words(&["ABC"]), &words(&["CAB"])));
    assert_eq!(Some(3), count_matching_chars_in_grid(&words(&["CBA"]), &words(&["CAB"])));
    assert_eq!(Some(2), count_matching_chars_in_grid(&words(&["ABAB"]), &words(&["AB"])));
    assert_eq!(Some(1), count_matching_chars_in_grid(&words(&["AAAAA"]), &words(&["A"])));
}

#[test]
fn count_in_grid_stays_between_top_and_bottom() {
    assert_eq!(Some(2), count_matching_chars_in_grid(&words(&["AB"]), &words(&["A", "B"])));
    assert_eq!(Some(2), count_matching_chars_in_grid(&words(&["AB"]), &words(&["B", "A"])));
    assert_eq!(Some(0), count_matching_chars_in_grid(&words(&["AB"]), &words(&["B", "C", "A"])));
    assert_eq!(Some(0), count_matching_chars_in_grid(&words(&["AA"]), &words(&["AB"])));
}

#[test]
fn count_in_grid_counts_each_cell_once() {
    let rows = words(&["ABA", "BAB", "ABA"]);
    assert_eq!(Some(9), count_matching_chars_in_grid(&words(&["AB"]), &rows));
    assert_eq!(Some(9), count_matching_chars_in_grid(&words(&["AB", "BA", "ABA"]), &rows));
    assert_eq!(Some(0), count_matching_chars_in_grid(&words(&[""]), &rows));
    assert_eq!(Some(0), count_matching_chars_in_grid(&words(&[]), &rows));
    assert_eq!(Some(0), count_matching_chars_in_grid(&words(&["AB"]), &words(&[])));
}

#[test]
fn count_in_grid_is_as_wide_as_its_first_row() {
    // The third column of the second row lies outside the grid.
    assert_eq!(
        Some(0),
        count_matching_chars_in_grid(&words(&["Z"]), &words(&["AB", "CDZ"]))
    );
    // The second row has no second cell.
    assert_eq!(
        Some(2),
        count_matching_chars_in_grid(&words(&["AC", "BD"]), &words(&["AB", "C"]))
    );
}
