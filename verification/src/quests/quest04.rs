//! Quest 4: striking nails level.
//!
//! The notes give the length of a nail on each line. A strike moves one
//! nail by one. Parts one and two ask how many strikes bring every nail
//! down to the shortest; part three, where a strike may also raise a nail,
//! how many bring every nail to the length of the middle one.

use vstd::prelude::*;
use vstd::relations::{sorted_by, total_ordering};
use vstd::seq_lib::lemma_sorted_unique;

use crate::common::{Part, QuestError};
use crate::sums::{lemma_sum_prefix, sum_below};
use crate::text::{
    decimal, decimal_string, find_line_end, lemma_line_end, line_between, line_end, parse_i32,
    parsed_i32, CARRIAGE_RETURN,
};

verus! {

/// The lengths that the lines of `text` from index `start` on give, one for
/// each line; `None` if one of those lines is not the decimal form of an
/// `i32`. After a final newline no further line follows.
pub open spec fn nails_from(text: Seq<u8>, start: int) -> Option<Seq<i32>>
    decreases text.len() + 1 - start,
    via nails_from_terminates
{
    if start < 0 || start >= text.len() {
        Some(Seq::empty())
    } else {
        let end = line_end(text, start);
        match (parsed_i32(line_between(text, start, end)), nails_from(text, end + 1)) {
            (Some(nail), Some(rest)) => Some(seq![nail] + rest),
            _ => None,
        }
    }
}

#[via_fn]
proof fn nails_from_terminates(text: Seq<u8>, start: int) {
    if 0 <= start < text.len() {
        lemma_line_end(text, start);
    }
}

/// The lengths of the nails that the notes `text` give.
pub open spec fn nails_of(text: Seq<u8>) -> Option<Seq<i32>> {
    nails_from(text, 0)
}

/// The order of lengths: at most as long.
pub open spec fn at_most() -> spec_fn(i32, i32) -> bool {
    |a: i32, b: i32| a <= b
}

/// The length of the shortest nail; 0 where there is no nail.
pub open spec fn shortest(nails: Seq<i32>) -> int
    decreases nails.len(),
{
    if nails.len() == 0 {
        0
    } else if nails.len() == 1 || nails.last() < shortest(nails.drop_last()) {
        nails.last() as int
    } else {
        shortest(nails.drop_last())
    }
}

/// The nails in ascending order of length.
pub open spec fn ascending(nails: Seq<i32>) -> Seq<i32> {
    nails.sort_by(at_most())
}

/// The length of the middle nail: with the nails in ascending order, the
/// one at half their number, rounded down, counted from 0.
pub open spec fn median(nails: Seq<i32>) -> int {
    ascending(nails)[nails.len() as int / 2] as int
}

/// The strikes that bring nail `i` to the length `level`, as a function of
/// `i`.
pub open spec fn strikes_at(nails: Seq<i32>, level: int) -> spec_fn(int) -> nat {
    |i: int|
        if nails[i] >= level {
            (nails[i] - level) as nat
        } else {
            (level - nails[i]) as nat
        }
}

/// The strikes that bring every nail to the length `level`.
pub open spec fn strikes_to(nails: Seq<i32>, level: int) -> nat {
    sum_below(nails.len() as int, strikes_at(nails, level))
}

/// The strikes that a part of the quest asks for.
pub open spec fn strikes(part: Part, nails: Seq<i32>) -> nat {
    if part == Part::Three {
        strikes_to(ascending(nails), median(nails))
    } else {
        strikes_to(nails, shortest(nails))
    }
}

/// The answer to a part of the quest: the number of strikes, or why there
/// is none. The notes must give a length on every line, and at least one;
/// the number of strikes must fit in an `i32`.
pub open spec fn answer(part: Part, text: Seq<u8>) -> Result<nat, QuestError> {
    match nails_of(text) {
        None => Err(QuestError::InvalidNumber),
        Some(nails) => if nails.len() == 0 {
            Err(QuestError::Empty)
        } else if strikes(part, nails) > i32::MAX {
            Err(QuestError::Overflow)
        } else {
            Ok(strikes(part, nails))
        },
    }
}

/// The shortest nail is a nail, and no nail is shorter.
pub proof fn lemma_shortest(nails: Seq<i32>)
    requires
        nails.len() > 0,
    ensures
        exists|i: int| 0 <= i < nails.len() && #[trigger] nails[i] == shortest(nails),
        forall|i: int| 0 <= i < nails.len() ==> shortest(nails) <= #[trigger] nails[i],
    decreases nails.len(),
{
    if nails.len() == 1 {
        assert(nails[0] == shortest(nails));
    } else {
        let rest = nails.drop_last();
        lemma_shortest(rest);
        assert forall|i: int| 0 <= i < nails.len() implies shortest(nails)
            <= #[trigger] nails[i] by {
            if i < rest.len() {
                assert(rest[i] == nails[i]);
            }
        }
    }
}

/// Solves a part of the quest: reads the length of a nail from each line of
/// the notes and writes, in decimal, the strikes that bring every nail to
/// one length: that of the shortest nail in parts one and two, that of the
/// middle nail in part three.
pub fn solve(part: Part, input: &[u8]) -> (answer: Result<String, QuestError>)
    ensures
        match self::answer(part, input@) {
            Ok(strikes) => answer is Ok && answer.unwrap()@ == decimal(strikes),
            Err(error) => answer == Err::<String, QuestError>(error),
        },
{
    let nails = match parse_nails(input) {
        Some(nails) => nails,
        None => {
            return Err(QuestError::InvalidNumber);
        },
    };
    let solution = match part {
        Part::One | Part::Two => count_strikes(&nails),
        Part::Three => count_bidirectional_strikes(nails),
    };
    match solution {
        Ok(strikes) => Ok(decimal_string(strikes as usize)),
        Err(error) => Err(error),
    }
}

/// Reads the length of a nail from each line of the notes; `None` if a line
/// is not the decimal form of an `i32`.
pub fn parse_nails(input: &[u8]) -> (nails: Option<Vec<i32>>)
    ensures
        match nails {
            Some(lengths) => nails_of(input@) == Some(lengths@),
            None => nails_of(input@) is None,
        },
{
    let mut nails: Vec<i32> = Vec::new();
    let mut start: usize = 0;
    while start < input.len()
        invariant
            0 <= start <= input@.len(),
            nails_of(input@) == match nails_from(input@, start as int) {
                Some(rest) => Some(nails@ + rest),
                None => None,
            },
        decreases input@.len() - start,
    {
        let end = find_line_end(input, start);
        let line_end = if end < input.len() && start < end && input[end - 1] == CARRIAGE_RETURN {
            end - 1
        } else {
            end
        };
        let nail = match parse_i32(input, start, line_end) {
            Some(nail) => nail,
            None => {
                return None;
            },
        };
        proof {
            if let Some(rest) = nails_from(input@, end + 1) {
                assert(nails@.push(nail) + rest =~= nails@ + (seq![nail] + rest));
            }
        }
        nails.push(nail);
        if end < input.len() {
            start = end + 1;
        } else {
            start = end;
        }
    }
    Some(nails)
}

/// The length of the shortest of the nails, of which there must be one.
fn shortest_nail(nails: &Vec<i32>) -> (length: i32)
    requires
        nails@.len() > 0,
    ensures
        length == shortest(nails@),
{
    let mut minimum = nails[0];
    let mut i: usize = 1;
    while i < nails.len()
        invariant
            1 <= i <= nails@.len(),
            minimum == shortest(nails@.take(i as int)),
        decreases nails@.len() - i,
    {
        let nail_length = nails[i];
        proof {
            let longer = nails@.take(i + 1);
            assert(longer.drop_last() =~= nails@.take(i as int));
        }
        if nail_length < minimum {
            minimum = nail_length;
        }
        i += 1;
    }
    assert(nails@.take(i as int) =~= nails@);
    minimum
}

/// The strikes that bring every nail to the length `level`, or `None` if
/// they are more than an `i32` holds.
fn count_strikes_to(nails: &Vec<i32>, level: i32) -> (strikes: Option<i32>)
    ensures
        match strikes {
            Some(count) => count == strikes_to(nails@, level as int),
            None => strikes_to(nails@, level as int) > i32::MAX,
        },
{
    let ghost each = strikes_at(nails@, level as int);
    let mut total: i64 = 0;
    let mut i: usize = 0;
    while i < nails.len()
        invariant
            0 <= i <= nails@.len(),
            each == strikes_at(nails@, level as int),
            total == sum_below(i as int, each),
            total <= i32::MAX,
        decreases nails@.len() - i,
    {
        let nail_length = nails[i];
        let distance: i64 = if nail_length >= level {
            nail_length as i64 - level as i64
        } else {
            level as i64 - nail_length as i64
        };
        total = total + distance;
        if total > i32::MAX as i64 {
            proof {
                lemma_sum_prefix(i as int + 1, nails@.len() as int, each);
            }
            return None;
        }
        i += 1;
    }
    Some(total as i32)
}

/// The strikes that bring every nail down to the length of the shortest.
pub fn count_strikes(nails: &Vec<i32>) -> (strikes: Result<i32, QuestError>)
    ensures
        strikes == if nails@.len() == 0 {
            Err::<i32, QuestError>(QuestError::Empty)
        } else if strikes_to(nails@, shortest(nails@)) > i32::MAX {
            Err(QuestError::Overflow)
        } else {
            Ok(strikes_to(nails@, shortest(nails@)) as i32)
        },
{
    if nails.len() == 0 {
        return Err(QuestError::Empty);
    }
    let minimum = shortest_nail(nails);
    match count_strikes_to(nails, minimum) {
        Some(strikes) => Ok(strikes),
        None => Err(QuestError::Overflow),
    }
}

/// Puts the nails in ascending order of length.
///
/// Trusted: calls `sort` of std's slices, and claims what its documentation
/// says: afterwards the slice is in ascending order and holds the same
/// elements as before, each as often as before.
#[verifier::external_body]
fn sort_ascending(nails: &mut Vec<i32>)
    ensures
        sorted_by(final(nails)@, at_most()),
        final(nails)@.to_multiset() == old(nails)@.to_multiset(),
{
    nails.sort();
}

/// The strikes that bring every nail, up or down, to the length of the
/// middle nail.
pub fn count_bidirectional_strikes(nails: Vec<i32>) -> (strikes: Result<i32, QuestError>)
    ensures
        strikes == if nails@.len() == 0 {
            Err::<i32, QuestError>(QuestError::Empty)
        } else if strikes_to(ascending(nails@), median(nails@)) > i32::MAX {
            Err(QuestError::Overflow)
        } else {
            Ok(strikes_to(ascending(nails@), median(nails@)) as i32)
        },
{
    if nails.len() == 0 {
        return Err(QuestError::Empty);
    }
    let mut sorted = nails;
    let ghost unsorted = sorted@;
    sort_ascending(&mut sorted);
    proof {
        unsorted.lemma_sort_by_ensures(at_most());
        lemma_sorted_unique(sorted@, ascending(unsorted), at_most());
        unsorted.to_multiset_ensures();
        ascending(unsorted).to_multiset_ensures();
    }
    let median = sorted[sorted.len() / 2];
    match count_strikes_to(&sorted, median) {
        Some(strikes) => Ok(strikes),
        None => Err(QuestError::Overflow),
    }
}

} // verus!
