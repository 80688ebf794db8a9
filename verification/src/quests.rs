//! The quests, one module each, and the way from a quest's number to its
//! solver.

pub mod quest01;
pub mod quest02;
pub mod quest03;
pub mod quest04;

use vstd::prelude::*;

use crate::common::{Part, QuestError};
use crate::text::decimal;
use quest03::grid::Grid;

verus! {

/// The number of quests that have a solver. They are numbered from 1.
pub const NUM_QUESTS: usize = 4;

/// The answer to a part of the quest with the given number, from the text
/// of its notes, or why there is none.
pub open spec fn answer(quest_number: nat, part: Part, text: Seq<u8>) -> Result<nat, QuestError> {
    if quest_number == 1 {
        quest01::answer(part, text)
    } else if quest_number == 2 {
        quest02::answer(part, text)
    } else if quest_number == 3 {
        Grid::answer(part, text)
    } else if quest_number == 4 {
        quest04::answer(part, text)
    } else {
        Err(QuestError::UnknownQuest)
    }
}

/// Solves a part of the quest with the given number from its notes, and
/// writes the answer in decimal.
pub fn solve(quest_number: usize, part: Part, input: &[u8]) -> (answer: Result<String, QuestError>)
    ensures
        match self::answer(quest_number as nat, part, input@) {
            Ok(number) => answer is Ok && answer.unwrap()@ == decimal(number),
            Err(error) => answer == Err::<String, QuestError>(error),
        },
{
    match quest_number {
        1 => quest01::solve(part, input),
        2 => quest02::solve(part, input),
        3 => quest03::solve(part, input),
        4 => quest04::solve(part, input),
        _ => Err(QuestError::UnknownQuest),
    }
}

} // verus!
