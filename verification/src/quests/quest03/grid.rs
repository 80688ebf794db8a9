//! The mathematical model of a depth map: rows of depths, not necessarily of
//! one length, and the rule by which one pass of erosion changes them.
//!
//! A position `(x, y)` is column `x` of row `y`; `y` grows downward and `x`
//! to the right. A position outside its row, or in a row that does not exist,
//! is absent: it has no depth and matches nothing.

use vstd::prelude::*;

use crate::sums::sum_below;
use crate::common::{Part, QuestError};
use crate::text::{lemma_line_end, line_end, upper_hex};

verus! {

/// A depth map as a mathematical value.
pub struct Grid {
    /// The rows from top to bottom, each from left to right.
    pub rows: Seq<Seq<nat>>,
    /// Whether the four diagonal neighbours count beside the orthogonal ones.
    pub diagonal: bool,
}

/// An axis-aligned rectangle of positions, both edges included.
pub struct Bounds {
    pub min_x: int,
    pub min_y: int,
    pub max_x: int,
    pub max_y: int,
}

/// The offsets of the four orthogonal neighbours: up, right, down, left.
pub open spec fn orthogonal_offsets() -> Seq<(int, int)> {
    seq![(0, -1), (1, 0), (0, 1), (-1, 0)]
}

/// The offsets of the four diagonal neighbours.
pub open spec fn diagonal_offsets() -> Seq<(int, int)> {
    seq![(1, -1), (1, 1), (-1, 1), (-1, -1)]
}

/// The symbol for an empty cell.
pub const EMPTY: u8 = 46;

/// The symbol for an occupied cell.
pub const OCCUPIED: u8 = 35;

/// The depth that a symbol of the notes stands for: 0 for `.`, 1 for `#`;
/// any other symbol stands for no cell at all.
pub open spec fn cell_of(symbol: u8) -> Option<nat> {
    if symbol == EMPTY {
        Some(0)
    } else if symbol == OCCUPIED {
        Some(1)
    } else {
        None
    }
}

/// The cells that a line of the notes holds: one for each `.` and `#`, in
/// order. Other symbols leave no gap.
pub open spec fn cells_of(line: Seq<u8>) -> Seq<nat>
    decreases line.len(),
{
    if line.len() == 0 {
        Seq::empty()
    } else {
        match cell_of(line.last()) {
            Some(depth) => cells_of(line.drop_last()).push(depth),
            None => cells_of(line.drop_last()),
        }
    }
}

/// The rows that the lines of `text` from index `start` on hold, one row for
/// each line. A line ends at a newline or with the text; after a final
/// newline no further line follows.
pub open spec fn rows_from(text: Seq<u8>, start: int) -> Seq<Seq<nat>>
    decreases text.len() + 1 - start,
    via rows_from_terminates
{
    if start < 0 || start >= text.len() {
        Seq::empty()
    } else {
        let end = line_end(text, start);
        seq![cells_of(text.subrange(start, end))] + rows_from(text, end + 1)
    }
}

#[via_fn]
proof fn rows_from_terminates(text: Seq<u8>, start: int) {
    if 0 <= start < text.len() {
        lemma_line_end(text, start);
    }
}

/// How a cell of the given depth is drawn: `.` for depth 0, else the depth in
/// upper-case hexadecimal.
pub open spec fn glyph(depth: nat) -> Seq<char> {
    if depth == 0 {
        seq!['.']
    } else {
        upper_hex(depth)
    }
}

/// How a row is drawn: its cells one after the other.
pub open spec fn row_text(row: Seq<nat>) -> Seq<char>
    decreases row.len(),
{
    if row.len() == 0 {
        Seq::empty()
    } else {
        row_text(row.drop_last()) + glyph(row.last())
    }
}

/// How rows are drawn: each row followed by a newline.
pub open spec fn rows_text(rows: Seq<Seq<nat>>) -> Seq<char>
    decreases rows.len(),
{
    if rows.len() == 0 {
        Seq::empty()
    } else {
        rows_text(rows.drop_last()) + row_text(rows.last()) + seq!['\n']
    }
}

/// `row` cut down to the columns from `lo` up to, not including, `hi`, as far
/// as it has them.
pub open spec fn crop_row(row: Seq<nat>, lo: int, hi: int) -> Seq<nat> {
    let len = row.len() as int;
    let from = if lo < len { lo } else { len };
    let to = if hi < len { hi } else { len };
    if 0 <= from <= to {
        row.subrange(from, to)
    } else {
        Seq::empty()
    }
}

impl Grid {
    /// The map of a single cell of depth 0, which stands for an empty map.
    pub open spec fn flat(diagonal: bool) -> Grid {
        Grid { rows: seq![seq![0nat]], diagonal }
    }

    /// The map that the notes `text` describe, with orthogonal neighbours
    /// only. Its rows may differ in length.
    pub open spec fn parsed(text: Seq<u8>) -> Grid {
        Grid { rows: rows_from(text, 0), diagonal: false }
    }

    /// The map of the notes `text` as a part of the quest erodes it: with
    /// the diagonal neighbours counted in part three only, and trimmed.
    pub open spec fn prepared(part: Part, text: Seq<u8>) -> Grid {
        Grid::parsed(text).with_diagonal(part == Part::Three).trimmed()
    }

    /// The answer to a part of the quest: the sum of all depths once the
    /// map of the notes is eroded. The erosion and the sum must stay within
    /// the range of the machine's integers.
    pub open spec fn answer(part: Part, text: Seq<u8>) -> Result<nat, QuestError> {
        let eroded = Grid::prepared(part, text).eroded();
        if Grid::prepared(part, text).can_erode() && eroded.total() <= usize::MAX {
            Ok(eroded.total())
        } else {
            Err(QuestError::Overflow)
        }
    }

    /// The map drawn as text, for a reader to follow the erosion: row after
    /// row, each followed by a newline.
    pub open spec fn rendered(self) -> Seq<char> {
        rows_text(self.rows)
    }

    /// The same cells under the other choice of neighbours.
    pub open spec fn with_diagonal(self, diagonal: bool) -> Grid {
        Grid { rows: self.rows, diagonal }
    }

    /// Whether `(x, y)` is a cell of the map.
    pub open spec fn present(self, x: int, y: int) -> bool {
        0 <= y < self.rows.len() && 0 <= x < self.rows[y].len()
    }

    /// The depth at `(x, y)`, or `None` where the map has no such cell.
    pub open spec fn depth(self, x: int, y: int) -> Option<nat> {
        if self.present(x, y) {
            Some(self.rows[y][x])
        } else {
            None
        }
    }

    /// Whether `(x, y)` is a cell of non-zero depth.
    pub open spec fn occupied(self, x: int, y: int) -> bool {
        self.present(x, y) && self.rows[y][x] > 0
    }

    /// The offsets that lead from a cell to its neighbours.
    pub open spec fn offsets(self) -> Seq<(int, int)> {
        if self.diagonal {
            orthogonal_offsets() + diagonal_offsets()
        } else {
            orthogonal_offsets()
        }
    }

    /// Whether the cell at `(x, y)` is raised by the next pass: it is
    /// occupied, and each of its neighbours is present and exactly as deep.
    pub open spec fn matched(self, x: int, y: int) -> bool {
        &&& self.occupied(x, y)
        &&& forall|i: int|
            0 <= i < self.offsets().len() ==> self.depth(
                x + (#[trigger] self.offsets()[i]).0,
                y + self.offsets()[i].1,
            ) == Some(self.rows[y][x])
    }

    /// Whether `(x, y)` is a cell of depth `d`.
    pub open spec fn level(self, x: int, y: int, d: nat) -> bool {
        self.depth(x, y) == Some(d)
    }

    /// Whether every neighbour of `(x, y)` is a cell of depth `d`, each
    /// neighbour written out.
    pub open spec fn surrounded(self, x: int, y: int, d: nat) -> bool {
        &&& self.level(x, y - 1, d)
        &&& self.level(x + 1, y, d)
        &&& self.level(x, y + 1, d)
        &&& self.level(x - 1, y, d)
        &&& self.diagonal ==> {
            &&& self.level(x + 1, y - 1, d)
            &&& self.level(x + 1, y + 1, d)
            &&& self.level(x - 1, y + 1, d)
            &&& self.level(x - 1, y - 1, d)
        }
    }

    /// Whether every neighbour of `(x, y)` is matched, each neighbour written
    /// out.
    pub open spec fn neighbours_matched(self, x: int, y: int) -> bool {
        &&& self.matched(x, y - 1)
        &&& self.matched(x + 1, y)
        &&& self.matched(x, y + 1)
        &&& self.matched(x - 1, y)
        &&& self.diagonal ==> {
            &&& self.matched(x + 1, y - 1)
            &&& self.matched(x + 1, y + 1)
            &&& self.matched(x - 1, y + 1)
            &&& self.matched(x - 1, y - 1)
        }
    }

    /// The depth that `(x, y)`, a cell of the map, has after one pass.
    pub open spec fn next_depth(self, x: int, y: int) -> nat {
        if self.matched(x, y) {
            self.rows[y][x] + 1
        } else {
            self.rows[y][x]
        }
    }

    /// The map after one pass: every matched cell one deeper, every other
    /// cell as it was, each decided on the map as it stood before the pass.
    pub open spec fn pass(self) -> Grid {
        Grid {
            rows: Seq::new(
                self.rows.len(),
                |y: int| Seq::new(self.rows[y].len(), |x: int| self.next_depth(x, y)),
            ),
            diagonal: self.diagonal,
        }
    }

    /// The map after `passes` passes.
    pub open spec fn after(self, passes: nat) -> Grid
        decreases passes,
    {
        if passes == 0 {
            self
        } else {
            self.after((passes - 1) as nat).pass()
        }
    }

    /// Whether a pass would change nothing.
    pub open spec fn stable(self) -> bool {
        forall|x: int, y: int| !self.matched(x, y)
    }

    /// The map once erosion has run its course. As many passes as the map has
    /// rows are always enough.
    pub open spec fn eroded(self) -> Grid {
        self.after(self.rows.len())
    }

    /// 1 where `(x, y)` is matched, else 0, as a function of `x`.
    pub open spec fn raised_at(self, y: int) -> spec_fn(int) -> nat {
        |x: int|
            if self.matched(x, y) {
                1nat
            } else {
                0nat
            }
    }

    /// The number of cells of row `y` that the next pass raises.
    pub open spec fn raised_in_row(self) -> spec_fn(int) -> nat {
        |y: int| sum_below(self.rows[y].len() as int, self.raised_at(y))
    }

    /// The number of cells that the next pass raises.
    pub open spec fn raised(self) -> nat {
        sum_below(self.rows.len() as int, self.raised_in_row())
    }

    /// The depth at `(x, y)` as a function of `x`.
    pub open spec fn depth_at(self, y: int) -> spec_fn(int) -> nat {
        |x: int| self.rows[y][x]
    }

    /// The sum of the depths of row `y`.
    pub open spec fn row_total(self) -> spec_fn(int) -> nat {
        |y: int| sum_below(self.rows[y].len() as int, self.depth_at(y))
    }

    /// The sum of all depths.
    pub open spec fn total(self) -> nat {
        sum_below(self.rows.len() as int, self.row_total())
    }

    /// The length of row `y`, as a function of `y`.
    pub open spec fn row_length(self) -> spec_fn(int) -> nat {
        |y: int| self.rows[y].len()
    }

    /// The number of cells.
    pub open spec fn cells(self) -> nat {
        sum_below(self.rows.len() as int, self.row_length())
    }

    /// Whether no cell is deeper than `limit`.
    pub open spec fn at_most(self, limit: nat) -> bool {
        forall|x: int, y: int| self.present(x, y) ==> #[trigger] self.rows[y][x] <= limit
    }

    /// Whether the next pass stays within the machine's integers: no cell
    /// that it raises is at the greatest depth a cell can hold, and the
    /// number of cells raised can be counted.
    pub open spec fn can_dig(self) -> bool {
        &&& self.raised() <= usize::MAX
        &&& forall|x: int, y: int| self.matched(x, y) ==> self.rows[y][x] < u8::MAX
    }

    /// Whether every pass, from here to the stable map, stays within the
    /// machine's integers.
    pub open spec fn can_erode(self) -> bool {
        forall|passes: nat| (#[trigger] self.after(passes)).can_dig()
    }

    /// Whether `bounds` is the bounding box of the occupied cells: it holds
    /// them all, and each of its four edges touches one.
    pub open spec fn bounded_by(self, bounds: Bounds) -> bool {
        &&& forall|x: int, y: int| #[trigger]
            self.occupied(x, y) ==> bounds.min_x <= x <= bounds.max_x && bounds.min_y <= y
                <= bounds.max_y
        &&& exists|y: int| #[trigger] self.occupied(bounds.min_x, y)
        &&& exists|y: int| #[trigger] self.occupied(bounds.max_x, y)
        &&& exists|x: int| #[trigger] self.occupied(x, bounds.min_y)
        &&& exists|x: int| #[trigger] self.occupied(x, bounds.max_y)
    }

    /// The bounding box of the occupied cells, or `None` where no cell is
    /// occupied.
    pub open spec fn bounding_box(self) -> Option<Bounds> {
        if exists|bounds: Bounds| self.bounded_by(bounds) {
            Some(choose|bounds: Bounds| self.bounded_by(bounds))
        } else {
            None
        }
    }

    /// The part of the map inside `bounds`, moved so that the corner
    /// `(min_x, min_y)` comes to lie at `(0, 0)`. A row that ends before the
    /// right edge of `bounds` stays as short as it is.
    pub open spec fn cropped(self, bounds: Bounds) -> Grid {
        Grid {
            rows: Seq::new(
                (bounds.max_y - bounds.min_y + 1) as nat,
                |j: int| crop_row(self.rows[bounds.min_y + j], bounds.min_x, bounds.max_x + 1),
            ),
            diagonal: self.diagonal,
        }
    }

    /// The map cut down to the bounding box of its occupied cells; the flat
    /// map where none is occupied.
    pub open spec fn trimmed(self) -> Grid {
        match self.bounding_box() {
            Some(bounds) => self.cropped(bounds),
            None => Grid::flat(self.diagonal),
        }
    }
}

} // verus!
