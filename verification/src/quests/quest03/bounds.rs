//! What holds of the bounding box of a map, and of the map trimmed to it.

use vstd::prelude::*;

use super::grid::{crop_row, Bounds, Grid};

verus! {

/// Among the integers from 0 up to `k` there is a least one with the property
/// `p`, if `k` has it.
proof fn lemma_least(p: spec_fn(int) -> bool, k: int) -> (least: int)
    requires
        0 <= k,
        p(k),
    ensures
        0 <= least <= k,
        p(least),
        forall|i: int| 0 <= i < least ==> !#[trigger] p(i),
    decreases k,
{
    if exists|i: int| 0 <= i < k && #[trigger] p(i) {
        let i = choose|i: int| 0 <= i < k && #[trigger] p(i);
        lemma_least(p, i)
    } else {
        k
    }
}

/// Among the integers from `k` up to `limit` there is a greatest one with the
/// property `p`, if `k` has it.
proof fn lemma_greatest(p: spec_fn(int) -> bool, k: int, limit: int) -> (greatest: int)
    requires
        k < limit,
        p(k),
    ensures
        k <= greatest < limit,
        p(greatest),
        forall|i: int| greatest < i < limit ==> !#[trigger] p(i),
    decreases limit - k,
{
    if exists|i: int| k < i < limit && #[trigger] p(i) {
        let i = choose|i: int| k < i < limit && #[trigger] p(i);
        lemma_greatest(p, i, limit)
    } else {
        k
    }
}

/// Some length is greater than those of the first `height` rows.
proof fn lemma_rows_have_limit(g: Grid, height: int) -> (limit: int)
    requires
        0 <= height <= g.rows.len(),
    ensures
        forall|y: int| 0 <= y < height ==> (#[trigger] g.rows[y]).len() < limit,
    decreases height,
{
    if height == 0 {
        0
    } else {
        let rest = lemma_rows_have_limit(g, height - 1);
        let last = g.rows[height - 1].len() as int;
        if rest > last {
            rest
        } else {
            last + 1
        }
    }
}

/// A map has at most one bounding box.
pub proof fn lemma_bounds_unique(g: Grid, a: Bounds, b: Bounds)
    requires
        g.bounded_by(a),
        g.bounded_by(b),
    ensures
        a == b,
{
}

/// A box that bounds the occupied cells is the bounding box.
pub proof fn lemma_bounding_box_is(g: Grid, bounds: Bounds)
    requires
        g.bounded_by(bounds),
    ensures
        g.bounding_box() == Some(bounds),
        g.trimmed() == g.cropped(bounds),
{
    let chosen = choose|b: Bounds| g.bounded_by(b);
    lemma_bounds_unique(g, chosen, bounds);
}

/// A map has a bounding box exactly when it has an occupied cell.
pub proof fn lemma_bounding_box_exists(g: Grid)
    ensures
        g.bounding_box() is Some <==> exists|x: int, y: int| g.occupied(x, y),
        g.bounding_box() matches Some(bounds) ==> g.bounded_by(bounds),
{
    if exists|x: int, y: int| g.occupied(x, y) {
        let (x0, y0) = choose|x: int, y: int| g.occupied(x, y);
        let in_column = |x: int| exists|y: int| g.occupied(x, y);
        let in_row = |y: int| exists|x: int| g.occupied(x, y);
        let limit = lemma_rows_have_limit(g, g.rows.len() as int);
        assert(in_column(x0));
        assert(in_row(y0));
        assert(g.rows[y0].len() < limit);
        let min_x = lemma_least(in_column, x0);
        let max_x = lemma_greatest(in_column, x0, limit);
        let min_y = lemma_least(in_row, y0);
        let max_y = lemma_greatest(in_row, y0, g.rows.len() as int);
        let bounds = Bounds { min_x, min_y, max_x, max_y };
        assert forall|x: int, y: int| #[trigger] g.occupied(x, y) implies min_x <= x <= max_x
            && min_y <= y <= max_y by {
            assert(in_column(x));
            assert(in_row(y));
            assert(g.rows[y].len() < limit);
        }
        let left = choose|y: int| g.occupied(min_x, y);
        let right = choose|y: int| g.occupied(max_x, y);
        let top = choose|x: int| g.occupied(x, min_y);
        let bottom = choose|x: int| g.occupied(x, max_y);
        assert(g.occupied(bounds.min_x, left));
        assert(g.occupied(bounds.max_x, right));
        assert(g.occupied(top, bounds.min_y));
        assert(g.occupied(bottom, bounds.max_y));
        assert(g.bounded_by(bounds));
    } else {
        if exists|b: Bounds| g.bounded_by(b) {
            let b = choose|b: Bounds| g.bounded_by(b);
            let y = choose|y: int| g.occupied(b.min_x, y);
            assert(g.occupied(b.min_x, y));
        }
    }
}

/// The map cut down to its bounding box holds, at the same place relative to
/// the box's corner, the depth of every position inside the box; cells
/// outside the box are gone.
pub proof fn lemma_cropped_depths(g: Grid, bounds: Bounds)
    requires
        g.bounded_by(bounds),
    ensures
        g.cropped(bounds).rows.len() == bounds.max_y - bounds.min_y + 1,
        forall|x: int, y: int|
            bounds.min_x <= x <= bounds.max_x && bounds.min_y <= y <= bounds.max_y
                ==> #[trigger] g.cropped(bounds).depth(x - bounds.min_x, y - bounds.min_y)
                == g.depth(x, y),
        forall|x: int, y: int| #[trigger]
            g.cropped(bounds).present(x, y) ==> 0 <= x <= bounds.max_x - bounds.min_x && 0 <= y
                <= bounds.max_y - bounds.min_y,
{
    let t = g.cropped(bounds);
    let top = choose|x: int| g.occupied(x, bounds.min_y);
    let bottom = choose|x: int| g.occupied(x, bounds.max_y);
    let left = choose|y: int| g.occupied(bounds.min_x, y);
    assert(g.occupied(top, bounds.min_y));
    assert(g.occupied(bottom, bounds.max_y));
    assert(g.occupied(bounds.min_x, left));
    assert forall|x: int, y: int|
        bounds.min_x <= x <= bounds.max_x && bounds.min_y <= y <= bounds.max_y implies
        #[trigger] t.depth(x - bounds.min_x, y - bounds.min_y) == g.depth(x, y) by {
        let row = g.rows[y];
        assert(t.rows[y - bounds.min_y] == crop_row(
            row,
            bounds.min_x,
            bounds.max_x + 1,
        ));
    }
    assert forall|x: int, y: int| #[trigger] t.present(x, y) implies 0 <= x <= bounds.max_x
        - bounds.min_x && 0 <= y <= bounds.max_y - bounds.min_y by {
        let row = g.rows[bounds.min_y + y];
        assert(t.rows[y] == crop_row(row, bounds.min_x, bounds.max_x + 1));
    }
}

/// Trimming is correct. A map without an occupied cell becomes the flat map,
/// a single cell of depth 0. Any other map becomes its bounding box and
/// nothing else: every occupied cell is kept where it was relative to the
/// other cells, with its depth, and the box that bounds the occupied cells
/// of the trimmed map is the whole of the trimmed map, from its first row
/// and column to its last.
pub proof fn lemma_trim_correct(g: Grid)
    ensures
        !(exists|x: int, y: int| g.occupied(x, y)) ==> g.trimmed() == Grid::flat(g.diagonal),
        (exists|x: int, y: int| g.occupied(x, y)) ==> g.bounding_box() is Some && {
            let bounds = g.bounding_box().unwrap();
            let width = bounds.max_x - bounds.min_x + 1;
            let height = bounds.max_y - bounds.min_y + 1;
            &&& g.bounded_by(bounds)
            &&& g.trimmed().rows.len() == height
            &&& forall|y: int|
                0 <= y < height ==> (#[trigger] g.trimmed().rows[y]).len() <= width
            &&& g.trimmed().bounded_by(
                Bounds { min_x: 0, min_y: 0, max_x: width - 1, max_y: height - 1 },
            )
            &&& forall|x: int, y: int|
                bounds.min_x <= x <= bounds.max_x && bounds.min_y <= y <= bounds.max_y
                    ==> #[trigger] g.trimmed().depth(x - bounds.min_x, y - bounds.min_y)
                    == g.depth(x, y)
        },
{
    lemma_bounding_box_exists(g);
    if exists|x: int, y: int| g.occupied(x, y) {
        let bounds = g.bounding_box().unwrap();
        let t = g.trimmed();
        let width = bounds.max_x - bounds.min_x + 1;
        let height = bounds.max_y - bounds.min_y + 1;
        lemma_bounding_box_is(g, bounds);
        lemma_cropped_depths(g, bounds);
        let inner = Bounds { min_x: 0, min_y: 0, max_x: width - 1, max_y: height - 1 };
        let top = choose|x: int| g.occupied(x, bounds.min_y);
        let bottom = choose|x: int| g.occupied(x, bounds.max_y);
        let left = choose|y: int| g.occupied(bounds.min_x, y);
        let right = choose|y: int| g.occupied(bounds.max_x, y);
        assert(t.depth(top - bounds.min_x, bounds.min_y - bounds.min_y) == g.depth(
            top,
            bounds.min_y,
        ));
        assert(t.depth(bottom - bounds.min_x, bounds.max_y - bounds.min_y) == g.depth(
            bottom,
            bounds.max_y,
        ));
        assert(t.depth(bounds.min_x - bounds.min_x, left - bounds.min_y) == g.depth(
            bounds.min_x,
            left,
        ));
        assert(t.depth(bounds.max_x - bounds.min_x, right - bounds.min_y) == g.depth(
            bounds.max_x,
            right,
        ));
        assert(t.occupied(top - bounds.min_x, inner.min_y));
        assert(t.occupied(bottom - bounds.min_x, inner.max_y));
        assert(t.occupied(inner.min_x, left - bounds.min_y));
        assert(t.occupied(inner.max_x, right - bounds.min_y));
        assert forall|y: int| 0 <= y < height implies (#[trigger] t.rows[y]).len() <= width by {
        }
        assert forall|x: int, y: int| #[trigger] t.occupied(x, y) implies 0 <= x <= width - 1
            && 0 <= y <= height - 1 by {
        }
    }
}

} // verus!
