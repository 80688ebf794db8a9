//! What holds of the maps that are read from notes, and of their answers.

use vstd::prelude::*;

use super::bounds::{lemma_bounding_box_exists, lemma_bounding_box_is, lemma_cropped_depths};
use super::grid::{cells_of, crop_row, rows_from, Grid};
use super::laws::{lemma_after_depths, lemma_pass_cells, lemma_shallow_can_erode};
use crate::common::Part;
use crate::sums::{
    lemma_sum_at_most, lemma_sum_monotone, lemma_sum_prefix, lemma_sum_shift, sum_below,
};
use crate::text::{lemma_line_end, line_end};

verus! {

/// A line holds at most as many cells as symbols, none deeper than 1.
pub proof fn lemma_cells_of(line: Seq<u8>)
    ensures
        cells_of(line).len() <= line.len(),
        forall|i: int| 0 <= i < cells_of(line).len() ==> #[trigger] cells_of(line)[i] <= 1,
    decreases line.len(),
{
    if line.len() > 0 {
        lemma_cells_of(line.drop_last());
    }
}

/// The rows read from index `start` on hold at most as many cells as there
/// are symbols from there on, none deeper than 1.
pub proof fn lemma_rows_from(text: Seq<u8>, start: int)
    requires
        0 <= start <= text.len(),
    ensures
        (Grid { rows: rows_from(text, start), diagonal: false }).cells() <= text.len() - start,
        (Grid { rows: rows_from(text, start), diagonal: false }).at_most(1),
    decreases text.len() - start,
{
    let g = Grid { rows: rows_from(text, start), diagonal: false };
    if start < text.len() {
        lemma_line_end(text, start);
        let end = line_end(text, start);
        let line = text.subrange(start, end);
        lemma_cells_of(line);
        if end < text.len() {
            let rest = Grid { rows: rows_from(text, end + 1), diagonal: false };
            lemma_rows_from(text, end + 1);
            assert forall|i: int| 0 <= i < rest.rows.len() implies #[trigger] rest.row_length()(i)
                == g.row_length()(i + 1) by {
            }
            lemma_sum_shift(rest.rows.len() as int, 1, g.row_length(), rest.row_length());
            assert(sum_below(1, g.row_length()) == g.rows[0].len()) by {
                assert(sum_below(0, g.row_length()) == 0);
            }
            assert forall|x: int, y: int| g.present(x, y) implies #[trigger] g.rows[y][x] <= 1 by {
            }
        } else {
            assert(sum_below(1, g.row_length()) == g.rows[0].len()) by {
                assert(sum_below(0, g.row_length()) == 0);
            }
        }
    }
}

/// The sum of all depths is at most `limit` times the number of cells, where
/// no cell is deeper than `limit`.
pub proof fn lemma_total_at_most(g: Grid, limit: nat)
    requires
        g.at_most(limit),
    ensures
        g.total() <= limit * g.cells(),
{
    let scaled = |y: int| limit * g.rows[y].len();
    assert forall|y: int| 0 <= y < g.rows.len() implies #[trigger] g.row_total()(y) <= scaled(
        y,
    ) by {
        assert forall|x: int| 0 <= x < g.rows[y].len() implies #[trigger] g.depth_at(y)(x)
            <= limit by {
        }
        lemma_sum_at_most(g.rows[y].len() as int, g.depth_at(y), limit);
    }
    lemma_sum_monotone(g.rows.len() as int, g.row_total(), scaled);
    lemma_sum_scaled(g.rows.len() as int, g.row_length(), scaled, limit);
}

/// A sum of terms that are each `factor` times another is `factor` times
/// the sum of the others.
proof fn lemma_sum_scaled(
    n: int,
    f: spec_fn(int) -> nat,
    scaled: spec_fn(int) -> nat,
    factor: nat,
)
    requires
        forall|i: int| 0 <= i < n ==> #[trigger] scaled(i) == factor * f(i),
    ensures
        sum_below(n, scaled) == factor * sum_below(n, f),
    decreases n,
{
    if n > 0 {
        lemma_sum_scaled(n - 1, f, scaled, factor);
        assert(factor * (sum_below(n - 1, f) + f(n - 1)) == factor * sum_below(n - 1, f) + factor
            * f(n - 1)) by (nonlinear_arith);
    } else {
        assert(factor * 0 == 0) by (nonlinear_arith);
    }
}

/// Trimming makes no cell deeper, and leaves at most as many cells as there
/// were, or the one cell of the flat map.
pub proof fn lemma_trimmed_shallow(g: Grid, limit: nat)
    requires
        g.at_most(limit),
    ensures
        g.trimmed().at_most(limit),
        g.trimmed().cells() <= g.cells() || g.trimmed().cells() == 1,
{
    lemma_bounding_box_exists(g);
    let t = g.trimmed();
    match g.bounding_box() {
        Some(bounds) => {
            lemma_bounding_box_is(g, bounds);
            lemma_cropped_depths(g, bounds);
            let height = bounds.max_y - bounds.min_y + 1;
            assert forall|x: int, y: int| t.present(x, y) implies #[trigger] t.rows[y][x]
                <= limit by {
                assert(t.depth(
                    (x + bounds.min_x) - bounds.min_x,
                    (y + bounds.min_y) - bounds.min_y,
                ) == g.depth(x + bounds.min_x, y + bounds.min_y));
            }
            let window = |j: int| g.rows[j + bounds.min_y].len();
            assert forall|j: int| 0 <= j < height implies #[trigger] t.row_length()(j) <= window(
                j,
            ) by {
                assert(t.rows[j] == crop_row(
                    g.rows[bounds.min_y + j],
                    bounds.min_x,
                    bounds.max_x + 1,
                ));
            }
            lemma_sum_monotone(height, t.row_length(), window);
            lemma_sum_shift(height, bounds.min_y, g.row_length(), window);
            lemma_sum_prefix(bounds.min_y + height, g.rows.len() as int, g.row_length());
        },
        None => {
            assert(sum_below(1, t.row_length()) == t.rows[0].len()) by {
                assert(sum_below(0, t.row_length()) == 0);
            }
        },
    }
}

/// Where every pass stays within the machine's integers, no pass makes a
/// cell deeper than a cell can hold.
pub proof fn lemma_eroding_stays_in_range(g: Grid, passes: nat)
    requires
        g.at_most(u8::MAX as nat),
        g.can_erode(),
    ensures
        g.after(passes).at_most(u8::MAX as nat),
    decreases passes,
{
    if passes > 0 {
        let before = g.after((passes - 1) as nat);
        lemma_eroding_stays_in_range(g, (passes - 1) as nat);
        lemma_pass_cells(before);
        assert forall|x: int, y: int| g.after(passes).present(x, y) implies #[trigger] g.after(
            passes,
        ).rows[y][x] <= u8::MAX by {
        }
    }
}

/// An answer is owed for every map that is not too large. Where the notes
/// are short enough for the deepest map that they could describe to have a
/// sum, and the map, once it is trimmed, has at most 510 rows or no row
/// longer than 510 cells, the quest has an answer.
pub proof fn lemma_answer_owed(part: Part, text: Seq<u8>, width: nat)
    requires
        255 * (text.len() + 1) <= usize::MAX,
        forall|y: int|
            0 <= y < Grid::prepared(part, text).rows.len() ==> (#[trigger] Grid::prepared(
                part,
                text,
            ).rows[y]).len() <= width,
        Grid::prepared(part, text).rows.len() <= 510 || width <= 510,
    ensures
        Grid::answer(part, text) is Ok,
{
    let read = Grid::parsed(text).with_diagonal(part == Part::Three);
    let g = Grid::prepared(part, text);
    lemma_rows_from(text, 0);
    assert(read.at_most(1)) by {
        assert forall|x: int, y: int| read.present(x, y) implies #[trigger] read.rows[y][x]
            <= 1 by {
        }
    }
    lemma_trimmed_shallow(read, 1);
    lemma_shallow_can_erode(g, 1, width);
    let height = g.rows.len();
    lemma_eroding_stays_in_range(g, height);
    lemma_after_depths(g, 1, height);
    lemma_total_at_most(g.eroded(), u8::MAX as nat);
    assert(255 * g.eroded().cells() <= 255 * (text.len() + 1)) by (nonlinear_arith)
        requires
            g.eroded().cells() <= text.len() + 1,
    ;
}

} // verus!
