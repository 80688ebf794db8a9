//! What holds of erosion on every map.

use vstd::prelude::*;

use super::grid::Grid;
use crate::sums::{
    lemma_sum_at_most, lemma_sum_monotone, lemma_sum_split, lemma_sum_tight, lemma_sum_zero,
};

verus! {

/// A cell is matched exactly when it is occupied and surrounded by cells of
/// its own depth.
pub proof fn lemma_matched_surrounded(g: Grid, x: int, y: int)
    ensures
        g.matched(x, y) <==> g.occupied(x, y) && g.surrounded(x, y, g.rows[y][x]),
{
    let o = g.offsets();
    let d = g.rows[y][x];
    if g.diagonal {
        assert(o[4] == (1int, -1int));
        assert(o[5] == (1int, 1int));
        assert(o[6] == (-1int, 1int));
        assert(o[7] == (-1int, -1int));
    }
    if g.occupied(x, y) && g.surrounded(x, y, d) {
        assert forall|i: int| 0 <= i < o.len() implies g.depth(
            x + (#[trigger] o[i]).0,
            y + o[i].1,
        ) == Some(d) by {
            if i == 0 {
            } else if i == 1 {
            } else if i == 2 {
            } else if i == 3 {
            } else if i == 4 {
            } else if i == 5 {
            } else if i == 6 {
            } else {
            }
        }
    }
}

/// A pass keeps the shape of the map, and gives each cell its next depth.
pub proof fn lemma_pass_cells(g: Grid)
    ensures
        g.pass().rows.len() == g.rows.len(),
        g.pass().diagonal == g.diagonal,
        forall|y: int|
            0 <= y < g.rows.len() ==> (#[trigger] g.pass().rows[y]).len() == g.rows[y].len(),
        forall|x: int, y: int| g.pass().present(x, y) == g.present(x, y),
        forall|x: int, y: int|
            g.present(x, y) ==> #[trigger] g.pass().rows[y][x] == g.next_depth(x, y),
{
}

/// After a pass, a cell is matched exactly when before the pass it was
/// matched and so was each of its neighbours: the matched cells shrink by one
/// layer with every pass, and a cell that once fails to match never matches
/// again.
pub proof fn lemma_pass_matched(g: Grid, x: int, y: int)
    ensures
        g.pass().matched(x, y) <==> g.matched(x, y) && g.neighbours_matched(x, y),
{
    let p = g.pass();
    lemma_pass_cells(g);
    lemma_matched_surrounded(p, x, y);
    lemma_matched_surrounded(g, x, y);
    lemma_matched_surrounded(g, x, y - 1);
    lemma_matched_surrounded(g, x + 1, y);
    lemma_matched_surrounded(g, x, y + 1);
    lemma_matched_surrounded(g, x - 1, y);
    lemma_matched_surrounded(g, x + 1, y - 1);
    lemma_matched_surrounded(g, x + 1, y + 1);
    lemma_matched_surrounded(g, x - 1, y + 1);
    lemma_matched_surrounded(g, x - 1, y - 1);
}

/// Any number of passes keeps the shape of the map.
pub proof fn lemma_after_shape(g: Grid, passes: nat)
    ensures
        g.after(passes).rows.len() == g.rows.len(),
        g.after(passes).diagonal == g.diagonal,
        forall|y: int|
            0 <= y < g.rows.len() ==> (#[trigger] g.after(passes).rows[y]).len()
                == g.rows[y].len(),
        forall|x: int, y: int| g.after(passes).present(x, y) == g.present(x, y),
    decreases passes,
{
    if passes > 0 {
        lemma_after_shape(g, (passes - 1) as nat);
        lemma_pass_cells(g.after((passes - 1) as nat));
    }
}

/// Passes add up: `first + then` passes are `first` passes and `then` more.
pub proof fn lemma_after_add(g: Grid, first: nat, then: nat)
    ensures
        g.after(first + then) == g.after(first).after(then),
    decreases then,
{
    if then > 0 {
        lemma_after_add(g, first, (then - 1) as nat);
    }
}

/// The number of cells that a pass raises is zero exactly on a stable map.
pub proof fn lemma_raised_zero(g: Grid)
    ensures
        g.raised() == 0 <==> g.stable(),
{
    let height = g.rows.len() as int;
    lemma_sum_zero(height, g.raised_in_row());
    if g.stable() {
        assert forall|y: int| 0 <= y < height implies #[trigger] g.raised_in_row()(y) == 0 by {
            lemma_sum_zero(g.rows[y].len() as int, g.raised_at(y));
        }
    }
    if g.raised() == 0 {
        assert forall|x: int, y: int| !g.matched(x, y) by {
            if g.matched(x, y) {
                assert(g.raised_in_row()(y) == 0);
                lemma_sum_zero(g.rows[y].len() as int, g.raised_at(y));
                assert(g.raised_at(y)(x) == 0);
            }
        }
    }
}

/// A pass adds to the sum of all depths the number of cells that it raises.
pub proof fn lemma_pass_total(g: Grid)
    ensures
        g.pass().total() == g.total() + g.raised(),
{
    let p = g.pass();
    let height = g.rows.len() as int;
    lemma_pass_cells(g);
    assert forall|y: int| 0 <= y < height implies #[trigger] p.row_total()(y) == g.row_total()(y)
        + g.raised_in_row()(y) by {
        lemma_sum_split(g.rows[y].len() as int, g.depth_at(y), g.raised_at(y), p.depth_at(y));
    }
    lemma_sum_split(height, g.row_total(), g.raised_in_row(), p.row_total());
}

/// A pass leaves a stable map as it is.
pub proof fn lemma_stable_pass(g: Grid)
    requires
        g.stable(),
    ensures
        g.pass() == g,
{
    lemma_pass_cells(g);
    assert forall|y: int| 0 <= y < g.rows.len() implies #[trigger] g.pass().rows[y]
        == g.rows[y] by {
    }
    assert(g.pass().rows =~= g.rows);
}

/// Once at rest, always at rest. After a pass that raises no cell, no number
/// of further passes changes the map: each of them raises no cell, and the
/// sum of the depths stays what it was.
pub proof fn lemma_rest_is_final(g: Grid, passes: nat)
    requires
        g.raised() == 0,
    ensures
        g.after(passes) == g,
        g.after(passes).raised() == 0,
        g.after(passes).total() == g.total(),
    decreases passes,
{
    lemma_raised_zero(g);
    if passes > 0 {
        lemma_rest_is_final(g, (passes - 1) as nat);
        lemma_stable_pass(g);
    }
}

/// A cell that is still matched after `passes` passes lies more than
/// `passes` cells away from every edge of its row and of its column.
pub proof fn lemma_matched_margin(g: Grid, passes: nat, x: int, y: int)
    requires
        g.after(passes).matched(x, y),
    ensures
        passes < x,
        x + passes + 1 < g.rows[y].len(),
        passes < y,
        y + passes + 1 < g.rows.len(),
    decreases passes,
{
    lemma_after_shape(g, passes);
    if passes == 0 {
        lemma_matched_surrounded(g, x, y);
    } else {
        let before = g.after((passes - 1) as nat);
        lemma_pass_matched(before, x, y);
        lemma_matched_margin(g, (passes - 1) as nat, x - 1, y);
        lemma_matched_margin(g, (passes - 1) as nat, x + 1, y);
        lemma_matched_margin(g, (passes - 1) as nat, x, y - 1);
        lemma_matched_margin(g, (passes - 1) as nat, x, y + 1);
    }
}

/// Erosion comes to rest, under either choice of neighbours. A map of some
/// number of rows, none longer than `width`, is stable after `passes`
/// passes as soon as `2 * passes + 2` reaches the smaller of the two
/// dimensions. So the pass whose number, counted from one, is the smaller
/// dimension raises no cell, nor does any pass after it; and on a map with
/// a single row or column no pass ever raises a cell.
pub proof fn lemma_erosion_terminates(g: Grid, width: nat, passes: nat)
    requires
        forall|y: int| 0 <= y < g.rows.len() ==> (#[trigger] g.rows[y]).len() <= width,
        2 * passes + 2 >= g.rows.len() || 2 * passes + 2 >= width,
    ensures
        g.after(passes).stable(),
        g.after(passes).raised() == 0,
{
    assert forall|x: int, y: int| !g.after(passes).matched(x, y) by {
        if g.after(passes).matched(x, y) {
            lemma_matched_margin(g, passes, x, y);
        }
    }
    lemma_raised_zero(g.after(passes));
}

/// As many passes as the map has rows leave it stable: the eroded map is at
/// rest.
pub proof fn lemma_eroded_stable(g: Grid)
    ensures
        g.eroded().stable(),
{
    assert forall|x: int, y: int| !g.eroded().matched(x, y) by {
        if g.eroded().matched(x, y) {
            lemma_matched_margin(g, g.rows.len(), x, y);
        }
    }
}

/// If the map is stable after some number of passes, it is the eroded map
/// from then on.
pub proof fn lemma_stable_is_eroded(g: Grid, passes: nat)
    requires
        g.after(passes).stable(),
    ensures
        g.after(passes) == g.eroded(),
{
    let height = g.rows.len();
    if passes <= height {
        lemma_after_add(g, passes, (height - passes) as nat);
        lemma_raised_zero(g.after(passes));
        lemma_rest_is_final(g.after(passes), (height - passes) as nat);
    } else {
        lemma_eroded_stable(g);
        lemma_after_add(g, height, (passes - height) as nat);
        lemma_raised_zero(g.eroded());
        lemma_rest_is_final(g.eroded(), (passes - height) as nat);
    }
}

/// A stable map can be dug: the pass raises nothing.
pub proof fn lemma_stable_can_dig(g: Grid)
    requires
        g.stable(),
    ensures
        g.can_dig(),
{
    lemma_raised_zero(g);
}

/// If every pass before the map is stable stays within the machine's
/// integers, so does every pass after: erosion can run its course.
pub proof fn lemma_stable_can_erode(g: Grid, passes: nat)
    requires
        g.after(passes).stable(),
        forall|earlier: nat| earlier < passes ==> (#[trigger] g.after(earlier)).can_dig(),
    ensures
        g.can_erode(),
{
    assert forall|later: nat| (#[trigger] g.after(later)).can_dig() by {
        if later >= passes {
            lemma_after_add(g, passes, (later - passes) as nat);
            lemma_raised_zero(g.after(passes));
            lemma_rest_is_final(g.after(passes), (later - passes) as nat);
            lemma_stable_can_dig(g.after(passes));
        }
    }
}

/// A pass raises at most as many cells as the map has.
pub proof fn lemma_raised_at_most_cells(g: Grid)
    ensures
        g.raised() <= g.cells(),
{
    assert forall|y: int| 0 <= y < g.rows.len() implies #[trigger] g.raised_in_row()(y)
        <= g.row_length()(y) by {
        lemma_sum_at_most(g.rows[y].len() as int, g.raised_at(y), 1);
    }
    lemma_sum_monotone(g.rows.len() as int, g.raised_in_row(), g.row_length());
}

/// Passes leave the number of cells as it is, and make no cell deeper than
/// one more for each pass.
pub proof fn lemma_after_depths(g: Grid, limit: nat, passes: nat)
    requires
        g.at_most(limit),
    ensures
        g.after(passes).cells() == g.cells(),
        g.after(passes).at_most(limit + passes),
    decreases passes,
{
    lemma_after_shape(g, passes);
    let now = g.after(passes);
    assert forall|y: int| 0 <= y < g.rows.len() implies #[trigger] now.row_length()(y)
        == g.row_length()(y) by {
    }
    lemma_sum_monotone(g.rows.len() as int, now.row_length(), g.row_length());
    lemma_sum_monotone(g.rows.len() as int, g.row_length(), now.row_length());
    if passes > 0 {
        let before = g.after((passes - 1) as nat);
        lemma_after_depths(g, limit, (passes - 1) as nat);
        lemma_pass_cells(before);
        assert forall|x: int, y: int| now.present(x, y) implies #[trigger] now.rows[y][x] <= limit
            + passes by {
        }
    }
}

/// Erosion stays within the machine's integers on every map that is not
/// too deep for its size. Where the cells can be counted, no cell is deeper
/// than `limit`, and the smaller dimension of the map, of its number of
/// rows and the greatest length `width` of a row, is at most `512 - 2 *
/// limit`, every pass can be made. A map as it is read from notes has
/// `limit` 1: it can be eroded if its smaller dimension is at most 510.
pub proof fn lemma_shallow_can_erode(g: Grid, limit: nat, width: nat)
    requires
        g.cells() <= usize::MAX,
        g.at_most(limit),
        forall|y: int| 0 <= y < g.rows.len() ==> (#[trigger] g.rows[y]).len() <= width,
        2 * limit + g.rows.len() <= 512 || 2 * limit + width <= 512,
    ensures
        g.can_erode(),
{
    assert forall|passes: nat| (#[trigger] g.after(passes)).can_dig() by {
        let now = g.after(passes);
        lemma_after_depths(g, limit, passes);
        lemma_raised_at_most_cells(now);
        assert forall|x: int, y: int| now.matched(x, y) implies now.rows[y][x] < u8::MAX by {
            lemma_matched_margin(g, passes, x, y);
            lemma_after_shape(g, passes);
        }
    }
}

/// With the diagonal neighbours counted, a cell has more to match, so erosion
/// goes no deeper: after any number of passes every cell that is matched
/// under the eight-neighbour rule is matched under the four-neighbour rule,
/// no cell is deeper under the eight-neighbour rule, and the sum of the
/// depths under the eight-neighbour rule is at most that under the
/// four-neighbour rule.
pub proof fn lemma_diagonal_no_deeper(g: Grid, passes: nat)
    ensures
        forall|x: int, y: int| #[trigger]
            g.with_diagonal(true).after(passes).matched(x, y) ==> g.with_diagonal(false).after(
                passes,
            ).matched(x, y),
        forall|x: int, y: int|
            g.present(x, y) ==> #[trigger] g.with_diagonal(true).after(passes).rows[y][x]
                <= g.with_diagonal(false).after(passes).rows[y][x],
        g.with_diagonal(true).after(passes).total() <= g.with_diagonal(false).after(
            passes,
        ).total(),
    decreases passes,
{
    let eight = g.with_diagonal(true).after(passes);
    let four = g.with_diagonal(false).after(passes);
    lemma_after_shape(g.with_diagonal(true), passes);
    lemma_after_shape(g.with_diagonal(false), passes);
    if passes == 0 {
        assert forall|x: int, y: int| #[trigger] eight.matched(x, y) implies four.matched(
            x,
            y,
        ) by {
            lemma_matched_surrounded(eight, x, y);
            lemma_matched_surrounded(four, x, y);
        }
    } else {
        let before = (passes - 1) as nat;
        let eight_before = g.with_diagonal(true).after(before);
        let four_before = g.with_diagonal(false).after(before);
        lemma_diagonal_no_deeper(g, before);
        lemma_after_shape(g.with_diagonal(true), before);
        lemma_after_shape(g.with_diagonal(false), before);
        lemma_pass_cells(eight_before);
        lemma_pass_cells(four_before);
        assert forall|x: int, y: int| #[trigger] eight.matched(x, y) implies four.matched(
            x,
            y,
        ) by {
            lemma_pass_matched(eight_before, x, y);
            lemma_pass_matched(four_before, x, y);
        }
        assert forall|x: int, y: int| g.present(x, y) implies #[trigger] eight.rows[y][x]
            <= four.rows[y][x] by {
        }
    }
    assert forall|y: int| 0 <= y < g.rows.len() implies #[trigger] eight.row_total()(y)
        <= four.row_total()(y) by {
        assert forall|x: int| 0 <= x < g.rows[y].len() implies #[trigger] eight.depth_at(y)(x)
            <= four.depth_at(y)(x) by {
        }
        lemma_sum_monotone(g.rows[y].len() as int, eight.depth_at(y), four.depth_at(y));
    }
    lemma_sum_monotone(g.rows.len() as int, eight.row_total(), four.row_total());
}

/// Where, after some number of passes, the sum of the depths under the
/// eight-neighbour rule is nevertheless at least the sum under the
/// four-neighbour rule, the two rules have led to the same depths in every
/// cell, and so to the same sum.
pub proof fn lemma_diagonal_sum_at_least(g: Grid, passes: nat)
    requires
        g.with_diagonal(true).after(passes).total() >= g.with_diagonal(false).after(
            passes,
        ).total(),
    ensures
        g.with_diagonal(true).after(passes).rows == g.with_diagonal(false).after(passes).rows,
        g.with_diagonal(true).after(passes).total() == g.with_diagonal(false).after(
            passes,
        ).total(),
{
    let eight = g.with_diagonal(true).after(passes);
    let four = g.with_diagonal(false).after(passes);
    let height = g.rows.len() as int;
    lemma_after_shape(g.with_diagonal(true), passes);
    lemma_after_shape(g.with_diagonal(false), passes);
    lemma_diagonal_no_deeper(g, passes);
    assert forall|y: int| 0 <= y < height implies #[trigger] eight.row_total()(y)
        <= four.row_total()(y) by {
        assert forall|x: int| 0 <= x < g.rows[y].len() implies #[trigger] eight.depth_at(y)(x)
            <= four.depth_at(y)(x) by {
        }
        lemma_sum_monotone(g.rows[y].len() as int, eight.depth_at(y), four.depth_at(y));
    }
    lemma_sum_tight(height, eight.row_total(), four.row_total());
    assert forall|y: int| 0 <= y < height implies #[trigger] eight.rows[y] == four.rows[y] by {
        assert forall|x: int| 0 <= x < g.rows[y].len() implies #[trigger] eight.depth_at(y)(x)
            <= four.depth_at(y)(x) by {
        }
        assert(eight.row_total()(y) == four.row_total()(y));
        lemma_sum_tight(g.rows[y].len() as int, eight.depth_at(y), four.depth_at(y));
        assert forall|x: int| 0 <= x < g.rows[y].len() implies eight.rows[y][x]
            == four.rows[y][x] by {
            assert(eight.depth_at(y)(x) == four.depth_at(y)(x));
        }
    }
}

} // verus!
