//! Quest 2: runic words in an inscription.
//!
//! The notes begin with a line `WORDS:` and a list of words, separated by
//! commas. A blank line follows, and after it the inscription. Part one
//! counts how often the words occur in the inscription. Part two counts the
//! symbols of the inscription that belong to an occurrence of a word, read
//! forward or backward. Part three reads the inscription as a grid, whose
//! rows close into rings, and counts the cells that belong to an occurrence
//! of a word in any of the four directions.
//!
//! The notes are taken symbol by symbol, a byte each, and must be ASCII.

pub mod grid;

use vstd::prelude::*;
use vstd::slice::{slice_subrange, slice_to_vec};

use crate::common::{Part, QuestError};
use crate::sums::{lemma_sum_prefix, sum_below};
use grid::{count_matching_chars_in_grid, grid_rows, rows_of, Search};
use crate::text::{decimal, decimal_string, find_line_end, line_end, NEWLINE};

verus! {

/// The symbol that separates the words of the list.
pub const COMMA: u8 = 44;

/// The text `WORDS:`, with which the notes begin, symbol by symbol.
pub open spec fn words_header() -> Seq<u8> {
    seq![87u8, 79u8, 82u8, 68u8, 83u8, 58u8]
}

/// The length of the text `WORDS:`.
pub const HEADER_LENGTH: usize = 6;

/// Whether `symbol` is ASCII white space: a space, a tab, a newline, a form
/// feed or a carriage return.
pub open spec fn is_space(symbol: u8) -> bool {
    symbol == 32 || symbol == 9 || symbol == 10 || symbol == 12 || symbol == 13
}

/// `text` without the white space at its end.
pub open spec fn without_trailing_space(text: Seq<u8>) -> Seq<u8>
    decreases text.len(),
{
    if text.len() > 0 && is_space(text.last()) {
        without_trailing_space(text.drop_last())
    } else {
        text
    }
}

/// The parts of `text` between its commas: one more than it has commas,
/// each possibly empty.
pub open spec fn split_at_commas(text: Seq<u8>) -> Seq<Seq<u8>>
    decreases text.len(),
{
    if text.len() == 0 {
        seq![Seq::empty()]
    } else {
        let before = split_at_commas(text.drop_last());
        if text.last() == COMMA {
            before.push(Seq::empty())
        } else {
            before.drop_last().push(before.last().push(text.last()))
        }
    }
}

/// Whether every symbol of `text` is ASCII.
pub open spec fn is_ascii(text: Seq<u8>) -> bool {
    forall|i: int| 0 <= i < text.len() ==> #[trigger] text[i] < 128
}

/// The list of words and the inscription that the notes `text` hold, or
/// what the notes lack.
///
/// The first line must begin with `WORDS:`; what follows on it, without
/// white space at its end, is the list. The second line must be one symbol
/// long, its newline included: a blank line, or a single symbol with which
/// the notes end. All that follows it is the inscription.
pub open spec fn notes_of(text: Seq<u8>) -> Result<(Seq<Seq<u8>>, Seq<u8>), QuestError> {
    let header_end = line_end(text, 0);
    let blank = header_end + 1;
    if !(header_end >= HEADER_LENGTH && text.subrange(0, HEADER_LENGTH as int) == words_header()) {
        Err(QuestError::MissingWords)
    } else if !(blank < text.len() && (text[blank] == NEWLINE || blank + 1 == text.len())) {
        Err(QuestError::MissingBlankLine)
    } else {
        Ok(
            (
                split_at_commas(
                    without_trailing_space(text.subrange(HEADER_LENGTH as int, header_end)),
                ),
                text.skip(blank + 1),
            ),
        )
    }
}

/// The words as sequences of symbols.
pub open spec fn lists(words: Seq<Vec<u8>>) -> Seq<Seq<u8>> {
    Seq::new(words.len(), |k: int| words[k]@)
}

/// Whether `word` stands in `text` at index `at`.
pub open spec fn occurs_at(text: Seq<u8>, word: Seq<u8>, at: int) -> bool {
    0 <= at && at + word.len() <= text.len() && text.subrange(at, at + word.len()) == word
}

/// 1 where `word` stands in `text` at index `at`, else 0, as a function of
/// `at`.
pub open spec fn occurrence_at(text: Seq<u8>, word: Seq<u8>) -> spec_fn(int) -> nat {
    |at: int|
        if occurs_at(text, word, at) {
            1nat
        } else {
            0nat
        }
}

/// How often `word` stands in `text`, counted at each index of `text`.
pub open spec fn occurrences(text: Seq<u8>, word: Seq<u8>) -> nat {
    sum_below(text.len() as int, occurrence_at(text, word))
}

/// How often word `k` stands in `text`, as a function of `k`.
pub open spec fn occurrences_of(words: Seq<Seq<u8>>, text: Seq<u8>) -> spec_fn(int) -> nat {
    |k: int| occurrences(text, words[k])
}

/// How often the words stand in `text`, all together. A word that is
/// listed twice counts twice, and the empty word stands at every index.
pub open spec fn word_count(words: Seq<Seq<u8>>, text: Seq<u8>) -> nat {
    sum_below(words.len() as int, occurrences_of(words, text))
}

/// Whether `word` stands in `text` at index `at`, read forward or backward.
pub open spec fn occurs_either_way(text: Seq<u8>, word: Seq<u8>, at: int) -> bool {
    occurs_at(text, word, at) || occurs_at(text, word.reverse(), at)
}

/// Whether symbol `i` of `text` belongs to an occurrence of `word` at index
/// `at`, read forward or backward.
pub open spec fn covers(text: Seq<u8>, word: Seq<u8>, at: int, i: int) -> bool {
    occurs_either_way(text, word, at) && at <= i < at + word.len()
}

/// Whether symbol `i` of `text` belongs to an occurrence of `word`, read
/// forward or backward, at one of the indices below `limit`.
pub open spec fn covered_by_word(text: Seq<u8>, word: Seq<u8>, limit: int, i: int) -> bool {
    exists|at: int| 0 <= at < limit && #[trigger] covers(text, word, at, i)
}

/// Whether symbol `i` of `text` belongs to an occurrence, forward or
/// backward, of one of the first `count` words.
pub open spec fn covered_by_words(words: Seq<Seq<u8>>, text: Seq<u8>, count: int, i: int) -> bool {
    exists|k: int|
        0 <= k < count && #[trigger] covered_by_word(text, words[k], text.len() as int, i)
}

/// 1 where symbol `i` of `text` belongs to an occurrence of one of the
/// words, else 0, as a function of `i`.
pub open spec fn covered_at(words: Seq<Seq<u8>>, text: Seq<u8>) -> spec_fn(int) -> nat {
    |i: int|
        if covered_by_words(words, text, words.len() as int, i) {
            1nat
        } else {
            0nat
        }
}

/// The number of symbols of `text` that belong to an occurrence of one of
/// the words, read forward or backward.
pub open spec fn covered_count(words: Seq<Seq<u8>>, text: Seq<u8>) -> nat {
    sum_below(text.len() as int, covered_at(words, text))
}

/// What a part of the quest counts in the inscription, given the words.
pub open spec fn count_of(part: Part, words: Seq<Seq<u8>>, inscription: Seq<u8>) -> nat {
    match part {
        Part::One => word_count(words, inscription),
        Part::Two => covered_count(words, inscription),
        Part::Three => (Search { rows: rows_of(inscription), words }).covered_count(),
    }
}

/// The answer to a part of the quest: the count, or why there is none. The
/// notes must be ASCII and hold the list of words, a blank line and the
/// inscription; in part three the inscription must have a row; and the
/// count must fit in a `usize`.
pub open spec fn answer(part: Part, text: Seq<u8>) -> Result<nat, QuestError> {
    if !is_ascii(text) {
        Err(QuestError::NotAscii)
    } else {
        match notes_of(text) {
            Err(error) => Err(error),
            Ok((words, inscription)) => if part == Part::Three && rows_of(inscription).len() == 0 {
                Err(QuestError::Empty)
            } else if count_of(part, words, inscription) > usize::MAX {
                Err(QuestError::Overflow)
            } else {
                Ok(count_of(part, words, inscription))
            },
        }
    }
}

/// Solves a part of the quest: reads the words and the inscription from
/// the notes and writes, in decimal, what the part counts. Part one counts
/// the occurrences of the words in the inscription; part two the symbols
/// of the inscription that belong to an occurrence of a word, read forward
/// or backward; part three the cells of the inscription, laid out as a
/// grid, that belong to a run of a word in any of the four directions.
pub fn solve(part: Part, input: &[u8]) -> (answer: Result<String, QuestError>)
    ensures
        match self::answer(part, input@) {
            Ok(count) => answer is Ok && answer.unwrap()@ == decimal(count),
            Err(error) => answer == Err::<String, QuestError>(error),
        },
{
    if !all_ascii(input) {
        return Err(QuestError::NotAscii);
    }
    let (wordlist, inscription) = match parse_input(input) {
        Ok(notes) => notes,
        Err(error) => {
            return Err(error);
        },
    };
    let count = match part {
        Part::One => count_words(&wordlist, inscription.as_slice()),
        Part::Two => Some(count_matching_chars(&wordlist, inscription.as_slice())),
        Part::Three => {
            let rows = grid_rows(inscription.as_slice());
            if rows.len() == 0 {
                return Err(QuestError::Empty);
            }
            count_matching_chars_in_grid(&wordlist, &rows)
        },
    };
    match count {
        Some(count) => Ok(decimal_string(count)),
        None => Err(QuestError::Overflow),
    }
}

/// Whether every symbol of the notes is ASCII.
pub fn all_ascii(input: &[u8]) -> (ascii: bool)
    ensures
        ascii == is_ascii(input@),
{
    let mut i: usize = 0;
    while i < input.len()
        invariant
            0 <= i <= input@.len(),
            forall|j: int| 0 <= j < i ==> #[trigger] input@[j] < 128,
        decreases input@.len() - i,
    {
        if input[i] >= 128 {
            return false;
        }
        i += 1;
    }
    true
}

/// The parts of the symbols of `input` from `start` up to `end` that lie
/// between commas.
fn split_words(input: &[u8], start: usize, end: usize) -> (words: Vec<Vec<u8>>)
    requires
        start <= end <= input@.len(),
    ensures
        lists(words@) == split_at_commas(input@.subrange(start as int, end as int)),
{
    let mut words: Vec<Vec<u8>> = Vec::new();
    let mut word: Vec<u8> = Vec::new();
    let mut at: usize = start;
    while at < end
        invariant
            start <= at <= end <= input@.len(),
            lists(words@).push(word@) == split_at_commas(
                input@.subrange(start as int, at as int),
            ),
        decreases end - at,
    {
        let symbol = input[at];
        proof {
            let longer = input@.subrange(start as int, at + 1);
            assert(longer.drop_last() =~= input@.subrange(start as int, at as int));
        }
        if symbol == COMMA {
            words.push(word);
            word = Vec::new();
        } else {
            word.push(symbol);
        }
        at += 1;
    }
    words.push(word);
    words
}

/// Reads the list of words and the inscription from the notes.
pub fn parse_input(input: &[u8]) -> (notes: Result<(Vec<Vec<u8>>, Vec<u8>), QuestError>)
    ensures
        match notes_of(input@) {
            Ok((words, inscription)) => notes is Ok && lists(notes.unwrap().0@) == words
                && notes.unwrap().1@ == inscription,
            Err(error) => notes == Err::<(Vec<Vec<u8>>, Vec<u8>), QuestError>(error),
        },
{
    let length = input.len();
    let header_end = find_line_end(input, 0);
    if header_end < 6 || !(input[0] == 87 && input[1] == 79 && input[2] == 82 && input[3] == 68
        && input[4] == 83 && input[5] == 58) {
        proof {
            if header_end >= 6 {
                let head = input@.subrange(0, 6);
                assert(head[0] == input@[0] && head[1] == input@[1] && head[2] == input@[2]
                    && head[3] == input@[3] && head[4] == input@[4] && head[5] == input@[5]);
            }
        }
        return Err(QuestError::MissingWords);
    }
    assert(input@.subrange(0, 6) =~= words_header());
    if header_end == length {
        return Err(QuestError::MissingBlankLine);
    }
    let blank = header_end + 1;
    if !(blank < length && (input[blank] == NEWLINE || blank + 1 == length)) {
        return Err(QuestError::MissingBlankLine);
    }
    let mut list_end = header_end;
    while list_end > 6 && is_space_symbol(input[list_end - 1])
        invariant
            6 <= list_end <= header_end <= input@.len(),
            without_trailing_space(input@.subrange(6, header_end as int))
                == without_trailing_space(input@.subrange(6, list_end as int)),
        decreases list_end,
    {
        proof {
            let longer = input@.subrange(6, list_end as int);
            assert(longer.drop_last() =~= input@.subrange(6, list_end - 1));
        }
        list_end -= 1;
    }
    let words = split_words(input, 6, list_end);
    let inscription = slice_to_vec(slice_subrange(input, blank + 1, length));
    Ok((words, inscription))
}

/// Whether `word` stands in `text` at index `at`.
fn stands_at(text: &[u8], word: &[u8], at: usize) -> (found: bool)
    requires
        at <= text@.len(),
    ensures
        found == occurs_at(text@, word@, at as int),
{
    let length = word.len();
    let total = text.len();
    if length > total - at {
        return false;
    }
    let mut j: usize = 0;
    while j < length
        invariant
            0 <= j <= length,
            length == word@.len(),
            total == text@.len(),
            at + length <= total,
            forall|i: int| 0 <= i < j ==> text@[at + i] == #[trigger] word@[i],
        decreases length - j,
    {
        if text[at + j] != word[j] {
            return false;
        }
        j += 1;
    }
    assert(text@.subrange(at as int, at + length) =~= word@);
    true
}

/// How often `word` stands in `text`.
fn count_word(text: &[u8], word: &[u8]) -> (count: usize)
    ensures
        count == occurrences(text@, word@),
{
    let mut count: usize = 0;
    let mut at: usize = 0;
    while at < text.len()
        invariant
            0 <= at <= text@.len(),
            count == sum_below(at as int, occurrence_at(text@, word@)),
            count <= at,
        decreases text@.len() - at,
    {
        if stands_at(text, word, at) {
            count += 1;
        }
        at += 1;
    }
    count
}

/// How often the words stand in the inscription, all together; `None` if
/// that is more than a `usize` holds.
pub fn count_words(wordlist: &Vec<Vec<u8>>, inscription: &[u8]) -> (count: Option<usize>)
    ensures
        match count {
            Some(c) => c == word_count(lists(wordlist@), inscription@),
            None => word_count(lists(wordlist@), inscription@) > usize::MAX,
        },
{
    let ghost each = occurrences_of(lists(wordlist@), inscription@);
    let mut count: usize = 0;
    let mut k: usize = 0;
    while k < wordlist.len()
        invariant
            0 <= k <= wordlist@.len(),
            each == occurrences_of(lists(wordlist@), inscription@),
            count == sum_below(k as int, each),
        decreases wordlist@.len() - k,
    {
        let of_word = count_word(inscription, wordlist[k].as_slice());
        match count.checked_add(of_word) {
            Some(sum) => {
                count = sum;
            },
            None => {
                proof {
                    lemma_sum_prefix(k as int + 1, wordlist@.len() as int, each);
                }
                return None;
            },
        }
        k += 1;
    }
    Some(count)
}

/// The word read backward.
fn reversed(word: &Vec<u8>) -> (backward: Vec<u8>)
    ensures
        backward@ == word@.reverse(),
{
    let length = word.len();
    let mut backward: Vec<u8> = Vec::new();
    let mut i: usize = 0;
    while i < length
        invariant
            0 <= i <= length,
            length == word@.len(),
            backward@.len() == i,
            forall|j: int| 0 <= j < i ==> #[trigger] backward@[j] == word@[length - 1 - j],
        decreases length - i,
    {
        backward.push(word[length - 1 - i]);
        i += 1;
    }
    backward
}

/// One more index at which the word may stand is one more way to be
/// covered.
proof fn lemma_covered_by_word_step(text: Seq<u8>, word: Seq<u8>, limit: int, i: int)
    requires
        0 <= limit,
    ensures
        covered_by_word(text, word, limit + 1, i) == (covered_by_word(text, word, limit, i)
            || covers(text, word, limit, i)),
        !covered_by_word(text, word, 0, i),
{
}

/// One more word is one more way to be covered.
proof fn lemma_covered_by_words_step(words: Seq<Seq<u8>>, text: Seq<u8>, limit: int, i: int)
    requires
        0 <= limit,
    ensures
        covered_by_words(words, text, limit + 1, i) == (covered_by_words(words, text, limit, i)
            || covered_by_word(text, words[limit], text.len() as int, i)),
        !covered_by_words(words, text, 0, i),
{
}

/// Marks the `length` symbols from index `at` on.
fn mark_run(marks: &mut Vec<bool>, at: usize, length: usize)
    requires
        at + length <= old(marks)@.len(),
    ensures
        final(marks)@.len() == old(marks)@.len(),
        forall|i: int|
            0 <= i < old(marks)@.len() ==> #[trigger] final(marks)@[i] == (old(marks)@[i] || at
                <= i < at + length),
{
    let size = marks.len();
    let mut j: usize = 0;
    while j < length
        invariant
            0 <= j <= length,
            size == marks@.len(),
            at + length <= size,
            marks@.len() == old(marks)@.len(),
            forall|i: int|
                0 <= i < marks@.len() ==> #[trigger] marks@[i] == (old(marks)@[i] || at <= i < at
                    + j),
        decreases length - j,
    {
        marks[at + j] = true;
        j += 1;
    }
}

/// Marks every symbol of `text` that belongs to an occurrence of `word`,
/// read forward or backward.
fn mark_word(marks: &mut Vec<bool>, text: &[u8], word: &Vec<u8>)
    requires
        old(marks)@.len() == text@.len(),
    ensures
        final(marks)@.len() == text@.len(),
        forall|i: int|
            0 <= i < text@.len() ==> #[trigger] final(marks)@[i] == (old(marks)@[i]
                || covered_by_word(text@, word@, text@.len() as int, i)),
{
    let backward = reversed(word);
    let mut at: usize = 0;
    while at < text.len()
        invariant
            0 <= at <= text@.len(),
            marks@.len() == text@.len(),
            backward@ == word@.reverse(),
            forall|i: int|
                0 <= i < text@.len() ==> #[trigger] marks@[i] == (old(marks)@[i]
                    || covered_by_word(text@, word@, at as int, i)),
        decreases text@.len() - at,
    {
        let ghost before = marks@;
        let found = stands_at(text, word.as_slice(), at) || stands_at(
            text,
            backward.as_slice(),
            at,
        );
        if found {
            mark_run(marks, at, word.len());
        }
        proof {
            assert forall|i: int| 0 <= i < text@.len() implies #[trigger] marks@[i] == (old(
                marks,
            )@[i] || covered_by_word(text@, word@, at + 1, i)) by {
                assert(marks@[i] == (before[i] || covers(text@, word@, at as int, i)));
                lemma_covered_by_word_step(text@, word@, at as int, i);
            }
        }
        at += 1;
    }
}

/// The number of symbols of the inscription that belong to an occurrence of
/// one of the words, read forward or backward.
pub fn count_matching_chars(wordlist: &Vec<Vec<u8>>, inscription: &[u8]) -> (count: usize)
    ensures
        count == covered_count(lists(wordlist@), inscription@),
{
    let ghost words = lists(wordlist@);
    let length = inscription.len();
    let mut marks: Vec<bool> = Vec::new();
    let mut i: usize = 0;
    while i < length
        invariant
            0 <= i <= length,
            marks@.len() == i,
            forall|j: int| 0 <= j < i ==> !#[trigger] marks@[j],
        decreases length - i,
    {
        marks.push(false);
        i += 1;
    }
    let mut k: usize = 0;
    while k < wordlist.len()
        invariant
            0 <= k <= wordlist@.len(),
            length == inscription@.len(),
            marks@.len() == length,
            words == lists(wordlist@),
            forall|j: int|
                0 <= j < length ==> #[trigger] marks@[j] == covered_by_words(
                    words,
                    inscription@,
                    k as int,
                    j,
                ),
        decreases wordlist@.len() - k,
    {
        mark_word(&mut marks, inscription, &wordlist[k]);
        proof {
            assert forall|j: int| 0 <= j < length implies #[trigger] marks@[j]
                == covered_by_words(words, inscription@, k + 1, j) by {
                lemma_covered_by_words_step(words, inscription@, k as int, j);
            }
        }
        k += 1;
    }
    let mut count: usize = 0;
    let mut i: usize = 0;
    while i < length
        invariant
            0 <= i <= length,
            length == inscription@.len(),
            marks@.len() == length,
            words == lists(wordlist@),
            forall|j: int|
                0 <= j < length ==> #[trigger] marks@[j] == covered_by_words(
                    words,
                    inscription@,
                    words.len() as int,
                    j,
                ),
            count == sum_below(i as int, covered_at(words, inscription@)),
            count <= i,
        decreases length - i,
    {
        if marks[i] {
            count += 1;
        }
        i += 1;
    }
    count
}

/// Whether `symbol` is ASCII white space.
fn is_space_symbol(symbol: u8) -> (space: bool)
    ensures
        space == is_space(symbol),
{
    symbol == 32 || symbol == 9 || symbol == 10 || symbol == 12 || symbol == 13
}

} // verus!
