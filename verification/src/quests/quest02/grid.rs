//! The inscription as a grid whose rows close into rings.
//!
//! The rows of the grid are the lines of the inscription. A word may run in
//! any of the four directions. Running right or left it passes from one end
//! of its row to the other, as often as it likes; running up or down it
//! must stay within the grid. The grid is as wide as its first row: cells
//! further right play no part, and a row that is shorter has no cells where
//! it ends.

use vstd::arithmetic::div_mod::{
    lemma_add_mod_noop_right, lemma_fundamental_div_mod_converse, lemma_mod_bound,
    lemma_small_mod, lemma_sub_mod_noop_right,
};
use vstd::prelude::*;
use vstd::slice::{slice_subrange, slice_to_vec};

use super::lists;
use crate::sums::{lemma_sum_prefix, sum_below};
use crate::text::{find_line_end, lemma_line_end, line_between, line_end, CARRIAGE_RETURN};

verus! {

/// A direction in which a word may run.
#[derive(Clone, Copy, Debug, PartialEq, Eq, Structural)]
pub enum Direction {
    Up,
    Right,
    Down,
    Left,
}

/// The inscription laid out as a grid, and the words to look for in it.
pub struct Search {
    /// The rows of the grid from top to bottom.
    pub rows: Seq<Seq<u8>>,
    /// The words.
    pub words: Seq<Seq<u8>>,
}

/// Whether `symbol` is white space at which an inscription is trimmed: a
/// space, or one of the control symbols from tab to carriage return.
pub open spec fn is_blank(symbol: u8) -> bool {
    symbol == 32 || 9 <= symbol <= 13
}

/// `text` without the white space at its end.
pub open spec fn without_trailing_blank(text: Seq<u8>) -> Seq<u8>
    decreases text.len(),
{
    if text.len() > 0 && is_blank(text.last()) {
        without_trailing_blank(text.drop_last())
    } else {
        text
    }
}

/// `text` without the white space at its beginning.
pub open spec fn without_leading_blank(text: Seq<u8>) -> Seq<u8>
    decreases text.len(),
{
    if text.len() > 0 && is_blank(text.first()) {
        without_leading_blank(text.drop_first())
    } else {
        text
    }
}

/// The lines of `text` from index `start` on. A line ends at a newline or
/// with the text, and a carriage return just before the newline is no part
/// of it.
pub open spec fn lines_from(text: Seq<u8>, start: int) -> Seq<Seq<u8>>
    decreases text.len() + 1 - start,
    via lines_from_terminates
{
    if start < 0 || start >= text.len() {
        Seq::empty()
    } else {
        let end = line_end(text, start);
        seq![line_between(text, start, end)] + lines_from(text, end + 1)
    }
}

#[via_fn]
proof fn lines_from_terminates(text: Seq<u8>, start: int) {
    if 0 <= start < text.len() {
        lemma_line_end(text, start);
    }
}

/// The rows of the grid that an inscription describes: the lines of the
/// inscription, once the white space at its beginning and end is gone.
pub open spec fn rows_of(inscription: Seq<u8>) -> Seq<Seq<u8>> {
    lines_from(without_trailing_blank(without_leading_blank(inscription)), 0)
}

/// The direction with the given number: up, right, down, left.
pub open spec fn direction(number: int) -> Direction {
    if number == 0 {
        Direction::Up
    } else if number == 1 {
        Direction::Right
    } else if number == 2 {
        Direction::Down
    } else {
        Direction::Left
    }
}

/// The position `steps` steps from `(x, y)` in the given direction, on a
/// grid of the given width whose rows close into rings.
pub open spec fn position(x: int, y: int, direction: Direction, steps: int, width: int) -> (
    int,
    int,
) {
    match direction {
        Direction::Up => (x, y - steps),
        Direction::Right => ((x + steps) % width, y),
        Direction::Down => (x, y + steps),
        Direction::Left => ((x - steps) % width, y),
    }
}

/// The symbol in the cell `(x, y)` of the grid, or `None` where the grid has
/// no such cell.
pub open spec fn symbol(rows: Seq<Seq<u8>>, x: int, y: int) -> Option<u8> {
    if 0 <= y < rows.len() && 0 <= x < rows[y].len() {
        Some(rows[y][x])
    } else {
        None
    }
}

/// The width of the grid: the length of its first row.
pub open spec fn width_of(rows: Seq<Seq<u8>>) -> int {
    if rows.len() > 0 {
        rows[0].len() as int
    } else {
        0
    }
}

/// The symbol in the cell `steps` steps from `(x, y)`.
pub open spec fn symbol_after(
    rows: Seq<Seq<u8>>,
    x: int,
    y: int,
    direction: Direction,
    steps: int,
) -> Option<u8> {
    let at = position(x, y, direction, steps, width_of(rows));
    symbol(rows, at.0, at.1)
}

/// Whether `word` runs from `(x, y)` in the given direction: each of its
/// symbols stands in the cell as many steps from `(x, y)` as the symbol is
/// from the beginning of the word.
pub open spec fn word_runs(
    rows: Seq<Seq<u8>>,
    word: Seq<u8>,
    x: int,
    y: int,
    direction: Direction,
) -> bool {
    forall|steps: int|
        0 <= steps < word.len() ==> symbol_after(rows, x, y, direction, steps) == Some(
            #[trigger] word[steps],
        )
}

/// Whether the cell `(cx, cy)` lies fewer than `limit` steps from `(x, y)`
/// in the given direction.
pub open spec fn reaches(
    width: int,
    x: int,
    y: int,
    direction: Direction,
    limit: int,
    cx: int,
    cy: int,
) -> bool {
    exists|steps: int|
        0 <= steps < limit && #[trigger] position(x, y, direction, steps, width) == (cx, cy)
}

/// Whether the cell `(cx, cy)` belongs to a run of `word` from `(x, y)` in
/// the given direction.
pub open spec fn word_hits(
    rows: Seq<Seq<u8>>,
    word: Seq<u8>,
    x: int,
    y: int,
    direction: Direction,
    cx: int,
    cy: int,
) -> bool {
    word_runs(rows, word, x, y, direction) && reaches(
        width_of(rows),
        x,
        y,
        direction,
        word.len() as int,
        cx,
        cy,
    )
}

impl Search {
    /// The width of the grid: the length of its first row.
    pub open spec fn width(self) -> int {
        width_of(self.rows)
    }

    /// The height of the grid: the number of its rows.
    pub open spec fn height(self) -> int {
        self.rows.len() as int
    }

    /// Whether the cell `(cx, cy)` belongs to a run of word `k` from
    /// `(x, y)` in the given direction.
    pub open spec fn hit(
        self,
        k: int,
        x: int,
        y: int,
        direction: Direction,
        cx: int,
        cy: int,
    ) -> bool {
        word_hits(self.rows, self.words[k], x, y, direction, cx, cy)
    }

    /// Whether the cell `(cx, cy)` belongs to a run of one of the first
    /// `limit` words from `(x, y)` in the given direction.
    pub open spec fn hit_by_words(
        self,
        limit: int,
        x: int,
        y: int,
        direction: Direction,
        cx: int,
        cy: int,
    ) -> bool {
        exists|k: int| 0 <= k < limit && #[trigger] self.hit(k, x, y, direction, cx, cy)
    }

    /// Whether the cell `(cx, cy)` belongs to a run of a word from `(x, y)`
    /// in one of the first `limit` directions.
    pub open spec fn hit_from(self, limit: int, x: int, y: int, cx: int, cy: int) -> bool {
        exists|d: int|
            0 <= d < limit && #[trigger] self.hit_by_words(
                self.words.len() as int,
                x,
                y,
                direction(d),
                cx,
                cy,
            )
    }

    /// Whether the cell `(cx, cy)` belongs to a run of a word from one of
    /// the first `limit` cells of row `y`.
    pub open spec fn hit_from_row(self, limit: int, y: int, cx: int, cy: int) -> bool {
        exists|x: int| 0 <= x < limit && #[trigger] self.hit_from(4, x, y, cx, cy)
    }

    /// Whether the cell `(cx, cy)` belongs to a run of a word from a cell
    /// of one of the first `limit` rows.
    pub open spec fn hit_from_rows(self, limit: int, cx: int, cy: int) -> bool {
        exists|y: int| 0 <= y < limit && #[trigger] self.hit_from_row(self.width(), y, cx, cy)
    }

    /// Whether the cell `(cx, cy)` belongs to a run of one of the words,
    /// from any cell of the grid in any direction.
    pub open spec fn covered(self, cx: int, cy: int) -> bool {
        self.hit_from_rows(self.height(), cx, cy)
    }

    /// 1 where the cell `(cx, cy)` is covered, else 0, as a function of
    /// `cx`.
    pub open spec fn covered_at(self, cy: int) -> spec_fn(int) -> nat {
        |cx: int|
            if self.covered(cx, cy) {
                1nat
            } else {
                0nat
            }
    }

    /// The number of covered cells in row `cy`, as a function of `cy`.
    pub open spec fn covered_in_row(self) -> spec_fn(int) -> nat {
        |cy: int| sum_below(self.width(), self.covered_at(cy))
    }

    /// The number of cells that belong to a run of one of the words.
    pub open spec fn covered_count(self) -> nat {
        sum_below(self.height(), self.covered_in_row())
    }
}

/// One step further to the right is the next cell of the ring.
proof fn lemma_position_right(x: int, steps: int, width: int)
    requires
        0 <= x < width,
        0 <= steps,
    ensures
        0 <= (x + steps) % width < width,
        (x + steps) % width == if x + steps % width >= width {
            x + steps % width - width
        } else {
            x + steps % width
        },
{
    lemma_mod_bound(steps, width);
    lemma_mod_bound(x + steps, width);
    lemma_add_mod_noop_right(x, steps, width);
    let sum = x + steps % width;
    if sum >= width {
        lemma_fundamental_div_mod_converse(sum, width, 1, sum - width);
    } else {
        lemma_small_mod(sum as nat, width as nat);
    }
}

/// One step further to the left is the previous cell of the ring.
proof fn lemma_position_left(x: int, steps: int, width: int)
    requires
        0 <= x < width,
        0 <= steps,
    ensures
        0 <= (x - steps) % width < width,
        (x - steps) % width == if steps % width > x {
            x + width - steps % width
        } else {
            x - steps % width
        },
{
    lemma_mod_bound(steps, width);
    lemma_mod_bound(x - steps, width);
    lemma_sub_mod_noop_right(x, steps, width);
    let difference = x - steps % width;
    if difference < 0 {
        lemma_fundamental_div_mod_converse(difference, width, -1, difference + width);
    } else {
        lemma_small_mod(difference as nat, width as nat);
    }
}

/// The position `idx` steps from `(x, y)` in the given direction, on a grid
/// of the given width and height whose rows close into rings; `None` where
/// that leaves the grid at its top or bottom.
pub fn directional_index(
    x: usize,
    y: usize,
    direction: Direction,
    idx: usize,
    width: usize,
    height: usize,
) -> (at: Option<(usize, usize)>)
    requires
        x < width,
        y < height,
    ensures
        match at {
            Some((cx, cy)) => (cx as int, cy as int) == position(
                x as int,
                y as int,
                direction,
                idx as int,
                width as int,
            ) && cx < width && cy < height,
            None => !(0 <= position(x as int, y as int, direction, idx as int, width as int).1
                < height),
        },
{
    match direction {
        Direction::Up => {
            if idx <= y {
                Some((x, y - idx))
            } else {
                None
            }
        },
        Direction::Down => {
            if idx < height - y {
                Some((x, y + idx))
            } else {
                None
            }
        },
        Direction::Right => {
            proof {
                lemma_position_right(x as int, idx as int, width as int);
            }
            let turn = idx % width;
            if turn >= width - x {
                Some((turn - (width - x), y))
            } else {
                Some((x + turn, y))
            }
        },
        Direction::Left => {
            proof {
                lemma_position_left(x as int, idx as int, width as int);
            }
            let turn = idx % width;
            if turn > x {
                Some((width - (turn - x), y))
            } else {
                Some((x - turn, y))
            }
        },
    }
}

/// Whether `symbol` is white space at which an inscription is trimmed.
fn is_blank_symbol(symbol: u8) -> (blank: bool)
    ensures
        blank == is_blank(symbol),
{
    symbol == 32 || (9 <= symbol && symbol <= 13)
}

/// Lays the inscription out as a grid: one row for each of its lines, once
/// the white space at its beginning and end is gone.
pub fn grid_rows(inscription: &[u8]) -> (rows: Vec<Vec<u8>>)
    ensures
        lists(rows@) == rows_of(inscription@),
{
    let length = inscription.len();
    let mut from: usize = 0;
    assert(inscription@.subrange(0, length as int) =~= inscription@);
    while from < length && is_blank_symbol(inscription[from])
        invariant
            0 <= from <= length,
            length == inscription@.len(),
            without_leading_blank(inscription@) == without_leading_blank(
                inscription@.subrange(from as int, length as int),
            ),
        decreases length - from,
    {
        proof {
            let rest = inscription@.subrange(from as int, length as int);
            assert(rest.drop_first() =~= inscription@.subrange(from + 1, length as int));
        }
        from += 1;
    }
    let mut to: usize = length;
    while to > from && is_blank_symbol(inscription[to - 1])
        invariant
            from <= to <= length,
            length == inscription@.len(),
            without_trailing_blank(inscription@.subrange(from as int, length as int))
                == without_trailing_blank(inscription@.subrange(from as int, to as int)),
        decreases to,
    {
        proof {
            let rest = inscription@.subrange(from as int, to as int);
            assert(rest.drop_last() =~= inscription@.subrange(from as int, to - 1));
        }
        to -= 1;
    }
    let text = slice_subrange(inscription, from, to);
    let mut rows: Vec<Vec<u8>> = Vec::new();
    let mut start: usize = 0;
    while start < text.len()
        invariant
            0 <= start <= text@.len(),
            lists(rows@) + lines_from(text@, start as int) == lines_from(text@, 0),
        decreases text@.len() - start,
    {
        let end = find_line_end(text, start);
        let line_end = if end < text.len() && start < end && text[end - 1] == CARRIAGE_RETURN {
            end - 1
        } else {
            end
        };
        let row = slice_to_vec(slice_subrange(text, start, line_end));
        proof {
            assert(lists(rows@.push(row)) + lines_from(text@, end + 1) =~= lists(rows@)
                + lines_from(text@, start as int));
        }
        rows.push(row);
        if end < text.len() {
            start = end + 1;
        } else {
            start = end;
        }
    }
    rows
}

/// The search for the given words in the grid of the given rows.
pub open spec fn search_of(rows: Seq<Vec<u8>>, words: Seq<Vec<u8>>) -> Search {
    Search { rows: lists(rows), words: lists(words) }
}

/// Whether `marks` holds a mark for every cell of a grid of the given width
/// and height.
pub open spec fn fits(marks: Seq<Vec<bool>>, width: int, height: int) -> bool {
    &&& marks.len() == height
    &&& forall|cy: int| 0 <= cy < height ==> (#[trigger] marks[cy])@.len() == width
}

/// The direction with the given number.
fn nth_direction(number: usize) -> (nth: Direction)
    ensures
        nth == direction(number as int),
{
    if number == 0 {
        Direction::Up
    } else if number == 1 {
        Direction::Right
    } else if number == 2 {
        Direction::Down
    } else {
        Direction::Left
    }
}

/// Whether `word` runs from `(x, y)` in the given direction.
fn runs_from(
    rows: &Vec<Vec<u8>>,
    word: &Vec<u8>,
    x: usize,
    y: usize,
    direction: Direction,
) -> (found: bool)
    requires
        y < rows@.len(),
        x < width_of(lists(rows@)),
    ensures
        found == word_runs(lists(rows@), word@, x as int, y as int, direction),
{
    let height = rows.len();
    let width = rows[0].len();
    let length = word.len();
    let mut idx: usize = 0;
    while idx < length
        invariant
            0 <= idx <= length,
            length == word@.len(),
            height == rows@.len(),
            width == width_of(lists(rows@)),
            x < width,
            y < height,
            forall|steps: int|
                0 <= steps < idx ==> symbol_after(
                    lists(rows@),
                    x as int,
                    y as int,
                    direction,
                    steps,
                ) == Some(#[trigger] word@[steps]),
        decreases length - idx,
    {
        let same = match directional_index(x, y, direction, idx, width, height) {
            Some((cx, cy)) => cx < rows[cy].len() && rows[cy][cx] == word[idx],
            None => false,
        };
        if !same {
            assert(symbol_after(lists(rows@), x as int, y as int, direction, idx as int) != Some(
                word@[idx as int],
            ));
            return false;
        }
        idx += 1;
    }
    true
}

/// Marks the cells of a run of `word` from `(x, y)` in the given direction,
/// if there is one.
fn mark_word(
    marks: &mut Vec<Vec<bool>>,
    rows: &Vec<Vec<u8>>,
    word: &Vec<u8>,
    x: usize,
    y: usize,
    direction: Direction,
)
    requires
        y < rows@.len(),
        x < width_of(lists(rows@)),
        fits(old(marks)@, width_of(lists(rows@)), rows@.len() as int),
    ensures
        fits(final(marks)@, width_of(lists(rows@)), rows@.len() as int),
        forall|cx: int, cy: int|
            0 <= cy < rows@.len() && 0 <= cx < width_of(lists(rows@))
                ==> #[trigger] final(marks)@[cy]@[cx] == (old(marks)@[cy]@[cx]
                || word_hits(
                lists(rows@),
                word@,
                x as int,
                y as int,
                direction,
                cx,
                cy,
            )),
{
    if !runs_from(rows, word, x, y, direction) {
        return ;
    }
    let height = rows.len();
    let width = rows[0].len();
    let length = word.len();
    let mut idx: usize = 0;
    while idx < length
        invariant
            0 <= idx <= length,
            length == word@.len(),
            height == rows@.len(),
            width == width_of(lists(rows@)),
            x < width,
            y < height,
            word_runs(lists(rows@), word@, x as int, y as int, direction),
            fits(marks@, width as int, height as int),
            forall|cx: int, cy: int|
                0 <= cy < height && 0 <= cx < width
                    ==> #[trigger] marks@[cy]@[cx] == (old(marks)@[cy]@[cx]
                    || reaches(
                    width as int,
                    x as int,
                    y as int,
                    direction,
                    idx as int,
                    cx,
                    cy,
                )),
        decreases length - idx,
    {
        assert(symbol_after(lists(rows@), x as int, y as int, direction, idx as int) == Some(
            word@[idx as int],
        ));
        match directional_index(x, y, direction, idx, width, height) {
            Some((cx, cy)) => {
                marks[cy][cx] = true;
            },
            None => {},
        }
        proof {
            assert forall|cx: int, cy: int| 0 <= cy < height && 0 <= cx < width implies
                #[trigger] marks@[cy]@[cx]
                == (old(marks)@[cy]@[cx] || reaches(
                width as int,
                x as int,
                y as int,
                direction,
                idx + 1,
                cx,
                cy,
            )) by {
                lemma_reaches_step(width as int, x as int, y as int, direction, idx as int, cx, cy);
            }
        }
        idx += 1;
    }
}

/// A cell lies fewer than `limit + 1` steps away exactly when it lies fewer
/// than `limit` steps away or just `limit` steps away.
proof fn lemma_reaches_step(
    width: int,
    x: int,
    y: int,
    direction: Direction,
    limit: int,
    cx: int,
    cy: int,
)
    requires
        0 <= limit,
    ensures
        reaches(width, x, y, direction, limit + 1, cx, cy) == (reaches(
            width,
            x,
            y,
            direction,
            limit,
            cx,
            cy,
        ) || position(x, y, direction, limit, width) == (cx, cy)),
{
}

impl Search {
    /// One more word is one more way to be hit.
    proof fn lemma_hit_by_words_step(
        self,
        limit: int,
        x: int,
        y: int,
        direction: Direction,
        cx: int,
        cy: int,
    )
        requires
            0 <= limit,
        ensures
            self.hit_by_words(limit + 1, x, y, direction, cx, cy) == (self.hit_by_words(
                limit,
                x,
                y,
                direction,
                cx,
                cy,
            ) || self.hit(limit, x, y, direction, cx, cy)),
            !self.hit_by_words(0, x, y, direction, cx, cy),
    {
    }

    /// One more direction is one more way to be hit.
    proof fn lemma_hit_from_step(self, limit: int, x: int, y: int, cx: int, cy: int)
        requires
            0 <= limit,
        ensures
            self.hit_from(limit + 1, x, y, cx, cy) == (self.hit_from(limit, x, y, cx, cy)
                || self.hit_by_words(self.words.len() as int, x, y, direction(limit), cx, cy)),
            !self.hit_from(0, x, y, cx, cy),
    {
    }

    /// One more cell of the row is one more way to be hit.
    proof fn lemma_hit_from_row_step(self, limit: int, y: int, cx: int, cy: int)
        requires
            0 <= limit,
        ensures
            self.hit_from_row(limit + 1, y, cx, cy) == (self.hit_from_row(limit, y, cx, cy)
                || self.hit_from(4, limit, y, cx, cy)),
            !self.hit_from_row(0, y, cx, cy),
    {
    }

    /// One more row is one more way to be hit.
    proof fn lemma_hit_from_rows_step(self, limit: int, cx: int, cy: int)
        requires
            0 <= limit,
        ensures
            self.hit_from_rows(limit + 1, cx, cy) == (self.hit_from_rows(limit, cx, cy)
                || self.hit_from_row(self.width(), limit, cx, cy)),
            !self.hit_from_rows(0, cx, cy),
    {
    }
}

/// Marks the cells of the runs of each word from `(x, y)` in the given
/// direction.
fn mark_direction(
    marks: &mut Vec<Vec<bool>>,
    rows: &Vec<Vec<u8>>,
    wordlist: &Vec<Vec<u8>>,
    x: usize,
    y: usize,
    direction: Direction,
)
    requires
        y < rows@.len(),
        x < width_of(lists(rows@)),
        fits(old(marks)@, width_of(lists(rows@)), rows@.len() as int),
    ensures
        fits(final(marks)@, width_of(lists(rows@)), rows@.len() as int),
        forall|cx: int, cy: int|
            0 <= cy < rows@.len() && 0 <= cx < width_of(lists(rows@))
                ==> #[trigger] final(marks)@[cy]@[cx] == (old(marks)@[cy]@[cx]
                || search_of(rows@, wordlist@).hit_by_words(
                wordlist@.len() as int,
                x as int,
                y as int,
                direction,
                cx,
                cy,
            )),
{
    let ghost search = search_of(rows@, wordlist@);
    let ghost width = width_of(lists(rows@));
    let ghost height = rows@.len() as int;
    let mut k: usize = 0;
    proof {
        assert forall|cx: int, cy: int|
            !search.hit_by_words(0, x as int, y as int, direction, cx, cy) by {
            search.lemma_hit_by_words_step(0, x as int, y as int, direction, cx, cy);
        }
    }
    while k < wordlist.len()
        invariant
            0 <= k <= wordlist@.len(),
            search == search_of(rows@, wordlist@),
            width == width_of(lists(rows@)),
            height == rows@.len(),
            y < height,
            x < width,
            fits(marks@, width, height),
            forall|cx: int, cy: int|
                0 <= cy < height && 0 <= cx < width
                    ==> #[trigger] marks@[cy]@[cx] == (old(marks)@[cy]@[cx]
                    || search.hit_by_words(k as int, x as int, y as int, direction, cx, cy)),
        decreases wordlist@.len() - k,
    {
        let ghost before = marks@;
        mark_word(marks, rows, &wordlist[k], x, y, direction);
        proof {
            assert forall|cx: int, cy: int| 0 <= cy < height && 0 <= cx < width implies
                #[trigger] marks@[cy]@[cx]
                == (old(marks)@[cy]@[cx] || search.hit_by_words(
                k + 1,
                x as int,
                y as int,
                direction,
                cx,
                cy,
            )) by {
                assert(marks@[cy]@[cx] == (before[cy]@[cx] || search.hit(
                    k as int,
                    x as int,
                    y as int,
                    direction,
                    cx,
                    cy,
                )));
                search.lemma_hit_by_words_step(k as int, x as int, y as int, direction, cx, cy);
            }
        }
        k += 1;
    }
}

/// Marks the cells of the runs of each word from `(x, y)` in each
/// direction.
fn mark_start(
    marks: &mut Vec<Vec<bool>>,
    rows: &Vec<Vec<u8>>,
    wordlist: &Vec<Vec<u8>>,
    x: usize,
    y: usize,
)
    requires
        y < rows@.len(),
        x < width_of(lists(rows@)),
        fits(old(marks)@, width_of(lists(rows@)), rows@.len() as int),
    ensures
        fits(final(marks)@, width_of(lists(rows@)), rows@.len() as int),
        forall|cx: int, cy: int|
            0 <= cy < rows@.len() && 0 <= cx < width_of(lists(rows@))
                ==> #[trigger] final(marks)@[cy]@[cx] == (old(marks)@[cy]@[cx]
                || search_of(rows@, wordlist@).hit_from(
                4,
                x as int,
                y as int,
                cx,
                cy,
            )),
{
    let ghost search = search_of(rows@, wordlist@);
    let ghost width = width_of(lists(rows@));
    let ghost height = rows@.len() as int;
    let mut d: usize = 0;
    proof {
        assert forall|cx: int, cy: int| !search.hit_from(0, x as int, y as int, cx, cy) by {
            search.lemma_hit_from_step(0, x as int, y as int, cx, cy);
        }
    }
    while d < 4
        invariant
            0 <= d <= 4,
            search == search_of(rows@, wordlist@),
            width == width_of(lists(rows@)),
            height == rows@.len(),
            y < height,
            x < width,
            fits(marks@, width, height),
            forall|cx: int, cy: int|
                0 <= cy < height && 0 <= cx < width
                    ==> #[trigger] marks@[cy]@[cx] == (old(marks)@[cy]@[cx]
                    || search.hit_from(d as int, x as int, y as int, cx, cy)),
        decreases 4 - d,
    {
        let ghost before = marks@;
        mark_direction(marks, rows, wordlist, x, y, nth_direction(d));
        proof {
            assert forall|cx: int, cy: int| 0 <= cy < height && 0 <= cx < width implies
                #[trigger] marks@[cy]@[cx]
                == (old(marks)@[cy]@[cx] || search.hit_from(d + 1, x as int, y as int, cx, cy)) by {
                assert(marks@[cy]@[cx] == (before[cy]@[cx] || search.hit_by_words(
                    wordlist@.len() as int,
                    x as int,
                    y as int,
                    direction(d as int),
                    cx,
                    cy,
                )));
                search.lemma_hit_from_step(d as int, x as int, y as int, cx, cy);
            }
        }
        d += 1;
    }
}

/// Marks the cells of the runs of each word from each cell of row `y`.
fn mark_row(marks: &mut Vec<Vec<bool>>, rows: &Vec<Vec<u8>>, wordlist: &Vec<Vec<u8>>, y: usize)
    requires
        y < rows@.len(),
        fits(old(marks)@, width_of(lists(rows@)), rows@.len() as int),
    ensures
        fits(final(marks)@, width_of(lists(rows@)), rows@.len() as int),
        forall|cx: int, cy: int|
            0 <= cy < rows@.len() && 0 <= cx < width_of(lists(rows@))
                ==> #[trigger] final(marks)@[cy]@[cx] == (old(marks)@[cy]@[cx]
                || search_of(rows@, wordlist@).hit_from_row(
                width_of(lists(rows@)),
                y as int,
                cx,
                cy,
            )),
{
    let ghost search = search_of(rows@, wordlist@);
    let ghost height = rows@.len() as int;
    let width = rows[0].len();
    let mut x: usize = 0;
    proof {
        assert forall|cx: int, cy: int| !search.hit_from_row(0, y as int, cx, cy) by {
            search.lemma_hit_from_row_step(0, y as int, cx, cy);
        }
    }
    while x < width
        invariant
            0 <= x <= width,
            search == search_of(rows@, wordlist@),
            width == width_of(lists(rows@)),
            height == rows@.len(),
            y < height,
            fits(marks@, width as int, height),
            forall|cx: int, cy: int|
                0 <= cy < height && 0 <= cx < width
                    ==> #[trigger] marks@[cy]@[cx] == (old(marks)@[cy]@[cx]
                    || search.hit_from_row(x as int, y as int, cx, cy)),
        decreases width - x,
    {
        let ghost before = marks@;
        mark_start(marks, rows, wordlist, x, y);
        proof {
            assert forall|cx: int, cy: int| 0 <= cy < height && 0 <= cx < width implies
                #[trigger] marks@[cy]@[cx]
                == (old(marks)@[cy]@[cx] || search.hit_from_row(x + 1, y as int, cx, cy)) by {
                assert(marks@[cy]@[cx] == (before[cy]@[cx] || search.hit_from(
                    4,
                    x as int,
                    y as int,
                    cx,
                    cy,
                )));
                search.lemma_hit_from_row_step(x as int, y as int, cx, cy);
            }
        }
        x += 1;
    }
}

/// A grid of marks, none set, for a grid of the given width and height.
fn no_marks(width: usize, height: usize) -> (marks: Vec<Vec<bool>>)
    ensures
        fits(marks@, width as int, height as int),
        forall|cx: int, cy: int|
            0 <= cy < height && 0 <= cx < width ==> !#[trigger] marks@[cy]@[cx],
{
    let mut marks: Vec<Vec<bool>> = Vec::new();
    let mut cy: usize = 0;
    while cy < height
        invariant
            0 <= cy <= height,
            fits(marks@, width as int, cy as int),
            forall|x: int, y: int| 0 <= y < cy && 0 <= x < width ==> !#[trigger] marks@[y]@[x],
        decreases height - cy,
    {
        let mut row: Vec<bool> = Vec::new();
        let mut cx: usize = 0;
        while cx < width
            invariant
                0 <= cx <= width,
                row@.len() == cx,
                forall|x: int| 0 <= x < cx ==> !#[trigger] row@[x],
            decreases width - cx,
        {
            row.push(false);
            cx += 1;
        }
        marks.push(row);
        cy += 1;
    }
    marks
}

/// The number of marks that are set; `None` if that is more than a `usize`
/// holds.
fn count_marks(marks: &Vec<Vec<bool>>, rows: &Vec<Vec<u8>>, wordlist: &Vec<Vec<u8>>) -> (count:
    Option<usize>)
    requires
        fits(
            marks@,
            search_of(rows@, wordlist@).width(),
            search_of(rows@, wordlist@).height(),
        ),
        forall|cx: int, cy: int|
            0 <= cy < search_of(rows@, wordlist@).height() && 0 <= cx < search_of(
                rows@,
                wordlist@,
            ).width() ==> #[trigger] marks@[cy]@[cx] == search_of(rows@, wordlist@).covered(
                cx,
                cy,
            ),
    ensures
        match count {
            Some(c) => c == search_of(rows@, wordlist@).covered_count(),
            None => search_of(rows@, wordlist@).covered_count() > usize::MAX,
        },
{
    let ghost search = search_of(rows@, wordlist@);
    let height = marks.len();
    let mut count: usize = 0;
    let mut cy: usize = 0;
    while cy < height
        invariant
            0 <= cy <= height,
            search == search_of(rows@, wordlist@),
            height == search.height(),
            fits(marks@, search.width(), search.height()),
            forall|x: int, y: int|
                0 <= y < search.height() && 0 <= x < search.width() ==> #[trigger] marks@[y]@[x]
                    == search.covered(x, y),
            count == sum_below(cy as int, search.covered_in_row()),
        decreases height - cy,
    {
        let row = &marks[cy];
        let width = row.len();
        let mut in_row: usize = 0;
        let mut cx: usize = 0;
        while cx < width
            invariant
                0 <= cx <= width,
                cy < height,
                height == search.height(),
                width == search.width(),
                row == marks@[cy as int],
                row@.len() == width,
                forall|x: int|
                    0 <= x < width ==> #[trigger] row@[x] == search.covered(x, cy as int),
                in_row == sum_below(cx as int, search.covered_at(cy as int)),
                in_row <= cx,
            decreases width - cx,
        {
            if row[cx] {
                in_row += 1;
            }
            cx += 1;
        }
        match count.checked_add(in_row) {
            Some(sum) => {
                count = sum;
            },
            None => {
                proof {
                    lemma_sum_prefix(cy as int + 1, height as int, search.covered_in_row());
                }
                return None;
            },
        }
        cy += 1;
    }
    Some(count)
}

/// The number of cells of the grid that belong to a run of one of the words
/// in any of the four directions; `None` if that is more than a `usize`
/// holds. The rows close into rings, the columns do not.
pub fn count_matching_chars_in_grid(wordlist: &Vec<Vec<u8>>, rows: &Vec<Vec<u8>>) -> (count: Option<
    usize,
>)
    ensures
        match count {
            Some(c) => c == search_of(rows@, wordlist@).covered_count(),
            None => search_of(rows@, wordlist@).covered_count() > usize::MAX,
        },
{
    let ghost search = search_of(rows@, wordlist@);
    let height = rows.len();
    if height == 0 {
        return Some(0);
    }
    let width = rows[0].len();
    let mut marks = no_marks(width, height);
    let mut y: usize = 0;
    proof {
        assert forall|cx: int, cy: int| !search.hit_from_rows(0, cx, cy) by {
            search.lemma_hit_from_rows_step(0, cx, cy);
        }
    }
    while y < height
        invariant
            0 <= y <= height,
            search == search_of(rows@, wordlist@),
            width == search.width(),
            height == search.height(),
            height == rows@.len(),
            fits(marks@, width as int, height as int),
            forall|cx: int, cy: int|
                0 <= cy < height && 0 <= cx < width ==> #[trigger] marks@[cy]@[cx]
                    == search.hit_from_rows(y as int, cx, cy),
        decreases height - y,
    {
        let ghost before = marks@;
        mark_row(&mut marks, rows, wordlist, y);
        proof {
            assert forall|cx: int, cy: int| 0 <= cy < height && 0 <= cx < width implies
                #[trigger] marks@[cy]@[cx]
                == search.hit_from_rows(y + 1, cx, cy) by {
                assert(marks@[cy]@[cx] == (before[cy]@[cx] || search.hit_from_row(
                    width as int,
                    y as int,
                    cx,
                    cy,
                )));
                search.lemma_hit_from_rows_step(y as int, cx, cy);
            }
        }
        y += 1;
    }
    count_marks(&marks, rows, wordlist)
}

} // verus!
