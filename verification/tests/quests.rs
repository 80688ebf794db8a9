use everybody_codes::common::{Part, QuestError};
use everybody_codes::quests::{solve, NUM_QUESTS};

#[test]
fn solve_goes_by_the_number_of_the_quest() {
    assert_eq!("5", solve(1, Part::One, b"ABBAC").unwrap());
    assert_eq!("2", solve(2, Part::One, b"WORDS:AB\n\nABAB").unwrap());
    assert_eq!("10", solve(3, Part::One, b"###\n###\n###\n").unwrap());
    assert_eq!("10", solve(4, Part::One, b"3\n4\n7\n8\n").unwrap());
}

#[test]
fn solve_knows_the_quests_from_one_to_four() {
    assert_eq!(4, NUM_QUESTS);
    for quest_number in [0, NUM_QUESTS + 1, 17, usize::MAX] {
        for part in [Part::One, Part::Two, Part::Three] {
            assert_eq!(Err(QuestError::UnknownQuest), solve(quest_number, part, b"ABBAC"));
        }
    }
    for quest_number in 1..=NUM_QUESTS {
        assert_ne!(
            Err(QuestError::UnknownQuest),
            solve(quest_number, Part::One, b"ABBAC")
        );
    }
}

#[test]
fn solve_hands_on_the_error_of_the_quest() {
    assert_eq!(Err(QuestError::MissingWords), solve(2, Part::One, b"ABBAC"));
    assert_eq!(Err(QuestError::InvalidNumber), solve(4, Part::One, b"ABBAC"));
    assert_eq!(Err(QuestError::Empty), solve(4, Part::Three, b""));
}
