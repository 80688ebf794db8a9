use everybody_codes::common::{Part, QuestError};
use everybody_codes::quests::quest01::{solve, Battle, Enemy, UnknownEnemy};

#[test]
fn quest01_solve_part_one_example() {
    assert_eq!("5", solve(Part::One, b"ABBAC").unwrap());
}

#[test]
fn quest01_solve_part_two_example() {
    assert_eq!("28", solve(Part::Two, b"AxBCDDCAxD").unwrap());
}

#[test]
fn quest01_solve_part_three_example() {
    assert_eq!("30", solve(Part::Three, b"xBxAAABCDxCC").unwrap());
}

#[test]
fn solve_without_notes_needs_no_potions() {
    for part in [Part::One, Part::Two, Part::Three] {
        assert_eq!(Ok("0".to_string()), solve(part, b""));
    }
}

#[test]
fn solve_leaves_out_symbols_after_the_last_whole_battle() {
    // (A, B) is a battle; C is left over.
    assert_eq!("3", solve(Part::Two, b"ABC").unwrap());
    // Two symbols make no battle of three.
    assert_eq!("0", solve(Part::Three, b"DD").unwrap());
    // (D, D, D) and (D, D, D); the last D is left over.
    assert_eq!("42", solve(Part::Three, b"DDDDDDD").unwrap());
}

#[test]
fn solve_counts_unknown_symbols_as_empty_places() {
    assert_eq!("1", solve(Part::Two, b"Bx").unwrap());
    assert_eq!("1", solve(Part::Two, b"xB").unwrap());
    assert_eq!("0", solve(Part::Two, b"xx").unwrap());
    // A newline is a symbol like any other: (B, newline), (B, B).
    assert_eq!("5", solve(Part::Two, b"B\nBB").unwrap());
    // Lower case names no enemy.
    assert_eq!("0", solve(Part::One, b"abcd").unwrap());
}

#[test]
fn solve_never_fails_on_notes_that_fit_in_memory() {
    let notes = vec![b'D'; 3000];
    assert_eq!(Ok("15000".to_string()), solve(Part::One, &notes));
    assert_eq!(Ok("18000".to_string()), solve(Part::Two, &notes));
    assert_eq!(Ok("21000".to_string()), solve(Part::Three, &notes));
    assert_ne!(Err(QuestError::Overflow), solve(Part::Three, &notes));
}

#[test]
fn enemy_potions() {
    assert_eq!(0, Enemy::AncientAnt.potions_needed());
    assert_eq!(1, Enemy::BadassBeetle.potions_needed());
    assert_eq!(3, Enemy::CreepyCockroach.potions_needed());
    assert_eq!(5, Enemy::DiabolicalDragonfly.potions_needed());
}

#[test]
fn enemy_from_symbol() {
    assert_eq!(Ok(Enemy::AncientAnt), Enemy::try_from(b'A'));
    assert_eq!(Ok(Enemy::BadassBeetle), Enemy::try_from(b'B'));
    assert_eq!(Ok(Enemy::CreepyCockroach), Enemy::try_from(b'C'));
    assert_eq!(Ok(Enemy::DiabolicalDragonfly), Enemy::try_from(b'D'));
}

#[test]
fn enemy_from_unknown_symbol() {
    assert_eq!(Err(UnknownEnemy), Enemy::try_from(b'x'));
    assert_eq!(Err(UnknownEnemy), Enemy::try_from(b'E'));
    assert_eq!(Err(UnknownEnemy), Enemy::try_from(b'@'));
    assert_eq!(Err(UnknownEnemy), Enemy::try_from(b'a'));
    assert_eq!(Err(UnknownEnemy), Enemy::try_from(0));
    assert_eq!(Err(UnknownEnemy), Enemy::try_from(255));
}

#[test]
fn battle_against_nobody_needs_no_potions() {
    assert_eq!(0, Battle::new(vec![]).potions_needed());
}

#[test]
fn battle_against_one_enemy_needs_its_potions() {
    assert_eq!(0, Battle::new(vec![Enemy::AncientAnt]).potions_needed());
    assert_eq!(5, Battle::new(vec![Enemy::DiabolicalDragonfly]).potions_needed());
}

#[test]
fn battle_against_several_enemies_needs_more_for_each_pair() {
    // 1 + 3, and one more for each of the two.
    let pair = Battle::new(vec![Enemy::BadassBeetle, Enemy::CreepyCockroach]);
    assert_eq!(6, pair.potions_needed());
    // 0 + 0 + 0, and two more for each of the three.
    let ants = Battle::new(vec![Enemy::AncientAnt; 3]);
    assert_eq!(6, ants.potions_needed());
    // 5 + 5 + 5 + 5, and three more for each of the four.
    let dragonflies = Battle::new(vec![Enemy::DiabolicalDragonfly; 4]);
    assert_eq!(32, dragonflies.potions_needed());
}
