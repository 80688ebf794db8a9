//! What every quest shares: the part of a quest that is being solved.

use vstd::prelude::*;
use vstd::std_specs::convert::{FromSpecImpl, TryFromSpecImpl};

use crate::text::{decimal, two_digit_string, zero_padded};

verus! {

/// One of the three parts of a quest.
#[derive(Clone, Copy, Debug, PartialEq, Eq, Structural)]
pub enum Part {
    One,
    Two,
    Three,
}

/// A number that names no part: only 1, 2 and 3 do.
#[derive(Clone, Copy, Debug, PartialEq, Eq, Structural)]
pub struct InvalidPart {
    pub number: usize,
}

/// Why a quest has no answer.
#[derive(Clone, Copy, Debug, PartialEq, Eq, Structural)]
pub enum QuestError {
    /// No quest has the number asked for.
    UnknownQuest,
    /// The work would leave the range of the machine's integers.
    Overflow,
    /// A line of the notes that should be a whole number is none.
    InvalidNumber,
    /// The notes hold nothing to work on.
    Empty,
    /// The notes hold a symbol outside ASCII.
    NotAscii,
    /// The notes do not begin with the list of words.
    MissingWords,
    /// No blank line follows the list of words.
    MissingBlankLine,
}

impl Part {
    /// The number of this part, from 1 to 3.
    pub open spec fn number(self) -> nat {
        match self {
            Part::One => 1,
            Part::Two => 2,
            Part::Three => 3,
        }
    }

    /// The text of the path under which the notes of a quest's part are kept.
    pub open spec fn input_path(self, quest_num: nat) -> Seq<char> {
        "notes/q"@ + zero_padded(decimal(quest_num), 2) + "p"@ + zero_padded(
            decimal(self.number()),
            2,
        )
    }

    /// The part with the given number, if there is one.
    pub open spec fn with_number(value: nat) -> Option<Part> {
        if value == 1 {
            Some(Part::One)
        } else if value == 2 {
            Some(Part::Two)
        } else if value == 3 {
            Some(Part::Three)
        } else {
            None
        }
    }

    /// Where the notes for this part of quest `quest_num` are expected:
    /// `notes/q`, the quest number, `p`, the part number, both numbers written
    /// with at least two digits.
    pub fn default_input_path(self, quest_num: usize) -> (path: String)
        ensures
            path@ == self.input_path(quest_num as nat),
    {
        let part_num: usize = usize::from(self);
        let path = String::from_str("notes/q");
        let path = path.concat(two_digit_string(quest_num).as_str());
        let path = path.concat("p");
        path.concat(two_digit_string(part_num).as_str())
    }
}

impl From<Part> for usize {
    fn from(part: Part) -> (number: usize) {
        match part {
            Part::One => 1,
            Part::Two => 2,
            Part::Three => 3,
        }
    }
}

impl FromSpecImpl<Part> for usize {
    open spec fn obeys_from_spec() -> bool {
        true
    }

    open spec fn from_spec(part: Part) -> usize {
        part.number() as usize
    }
}

impl TryFrom<usize> for Part {
    type Error = InvalidPart;

    fn try_from(value: usize) -> (part: Result<Part, InvalidPart>) {
        match value {
            1 => Ok(Part::One),
            2 => Ok(Part::Two),
            3 => Ok(Part::Three),
            _ => Err(InvalidPart { number: value }),
        }
    }
}

impl TryFromSpecImpl<usize> for Part {
    open spec fn obeys_try_from_spec() -> bool {
        true
    }

    open spec fn try_from_spec(value: usize) -> Result<Part, InvalidPart> {
        match Part::with_number(value as nat) {
            Some(part) => Ok(part),
            None => Err(InvalidPart { number: value }),
        }
    }
}

} // verus!
