//! Quest 3: erosion of a depth map.
//!
//! A [`DepthMap`] is a grid of depths. One pass of erosion, [`DepthMap::dig`],
//! raises by one the depth of every occupied cell whose neighbours are all
//! present and exactly as deep as the cell itself; every cell is judged on
//! the map as it stood before the pass. Passes are repeated until one
//! changes nothing, and the answer is the sum of all depths.
//!
//! The contracts speak of the map's mathematical model, [`grid::Grid`].
//! [`laws`] and [`bounds`] prove what holds of erosion and of trimming on
//! every map, [`notes`] what holds of the maps that are read from notes.

pub mod bounds;
pub mod grid;
pub mod laws;
pub mod notes;

use vstd::prelude::*;
use vstd::slice::{slice_subrange, slice_to_vec};

use crate::common::{Part, QuestError};
use crate::sums::{lemma_sum_prefix, sum_below};
use crate::text::{decimal, decimal_string, find_line_end, upper_hex_string};
use grid::{cells_of, crop_row, row_text, rows_from, rows_text, Bounds, Grid, EMPTY, OCCUPIED};

verus! {

/// The rows of depths that a vector of vectors of bytes stands for.
pub open spec fn depths(map: Seq<Vec<u8>>) -> Seq<Seq<nat>> {
    Seq::new(map.len(), |y: int| Seq::new(map[y]@.len(), |x: int| map[y]@[x] as nat))
}

/// A grid of depths, and the choice of which cells count as neighbours.
#[derive(Debug, PartialEq)]
pub struct DepthMap {
    map: Vec<Vec<u8>>,
    diagonal_neighbours: bool,
}

impl View for DepthMap {
    type V = Grid;

    closed spec fn view(&self) -> Grid {
        Grid { rows: depths(self.map@), diagonal: self.diagonal_neighbours }
    }
}

/// Whether the offsets are those of the model, one for one.
pub open spec fn offsets_agree(offsets: Seq<(isize, isize)>, model: Seq<(int, int)>) -> bool {
    &&& offsets.len() == model.len()
    &&& forall|i: int|
        0 <= i < offsets.len() ==> (#[trigger] offsets[i]).0 == model[i].0 && offsets[i].1
            == model[i].1
}

/// `i + d` for a step `d` of at most one, unless that leaves the `usize`
/// range.
fn shifted(i: usize, d: isize) -> (moved: Option<usize>)
    requires
        -1 <= d <= 1,
    ensures
        moved == if 0 <= i + d <= usize::MAX {
            Some((i + d) as usize)
        } else {
            None
        },
{
    if d < 0 {
        if i == 0 {
            None
        } else {
            Some(i - 1)
        }
    } else if d == 0 {
        Some(i)
    } else if i == usize::MAX {
        None
    } else {
        Some(i + 1)
    }
}

/// Solves a part of the quest: reads the map from the notes, counts the
/// diagonal neighbours in part three only, trims the map, erodes it until it
/// is stable, and writes the sum of all depths in decimal.
///
/// The answer is an error only where the erosion or the sum would leave the
/// range of the machine's integers.
pub fn solve(part: Part, input: &[u8]) -> (answer: Result<String, QuestError>)
    ensures
        match Grid::answer(part, input@) {
            Ok(sum) => answer is Ok && answer.unwrap()@ == decimal(sum),
            Err(error) => answer == Err::<String, QuestError>(error),
        },
{
    let mut depth_map = DepthMap::parse(input);
    if part == Part::Three {
        depth_map.set_diagonal_neighbours(true);
    }
    depth_map.trim();
    if !depth_map.erode() {
        return Err(QuestError::Overflow);
    }
    match depth_map.checked_sum() {
        Some(sum) => Ok(decimal_string(sum)),
        None => Err(QuestError::Overflow),
    }
}

/// The cells that the symbols of `input` from `start` up to `end` stand for.
fn parse_line(input: &[u8], start: usize, end: usize) -> (row: Vec<u8>)
    requires
        start <= end <= input@.len(),
    ensures
        row@.len() == cells_of(input@.subrange(start as int, end as int)).len(),
        forall|i: int|
            0 <= i < row@.len() ==> (#[trigger] row@[i]) as nat == cells_of(
                input@.subrange(start as int, end as int),
            )[i],
{
    let mut row: Vec<u8> = Vec::new();
    let mut at: usize = start;
    while at < end
        invariant
            start <= at <= end <= input@.len(),
            row@.len() == cells_of(input@.subrange(start as int, at as int)).len(),
            forall|i: int|
                0 <= i < row@.len() ==> (#[trigger] row@[i]) as nat == cells_of(
                    input@.subrange(start as int, at as int),
                )[i],
        decreases end - at,
    {
        let symbol = input[at];
        proof {
            let longer = input@.subrange(start as int, at + 1);
            assert(longer.drop_last() =~= input@.subrange(start as int, at as int));
        }
        if symbol == EMPTY {
            row.push(0);
        } else if symbol == OCCUPIED {
            row.push(1);
        }
        at += 1;
    }
    row
}

impl DepthMap {
    /// Reads a map from the text of the notes: one row for each line, and in
    /// each line a cell of depth 0 for each `.` and a cell of depth 1 for
    /// each `#`. Any other symbol is passed over and leaves no gap, so the
    /// rows may differ in length. After a final newline no further row
    /// follows.
    pub fn parse(input: &[u8]) -> (depth_map: Self)
        ensures
            depth_map@ == Grid::parsed(input@),
    {
        let mut map: Vec<Vec<u8>> = Vec::new();
        let mut start: usize = 0;
        while start < input.len()
            invariant
                0 <= start <= input@.len(),
                depths(map@) + rows_from(input@, start as int) == rows_from(input@, 0),
            decreases input@.len() - start,
        {
            let end = find_line_end(input, start);
            let row = parse_line(input, start, end);
            proof {
                let line = cells_of(input@.subrange(start as int, end as int));
                assert(depths(map@.push(row)) =~= depths(map@) + seq![line]) by {
                    assert(depths(map@.push(row))[map@.len() as int] =~= line);
                    assert forall|j: int| 0 <= j < map@.len() implies depths(map@.push(row))[j]
                        == depths(map@)[j] by {
                    }
                }
                assert(rows_from(input@, start as int) == seq![line] + rows_from(
                    input@,
                    end + 1,
                ));
                assert(depths(map@.push(row)) + rows_from(input@, end + 1) =~= depths(map@)
                    + rows_from(input@, start as int));
            }
            map.push(row);
            if end < input.len() {
                start = end + 1;
            } else {
                start = end;
            }
        }
        Self::new(map)
    }

    /// A map of the given rows, with orthogonal neighbours only.
    pub fn new(map: Vec<Vec<u8>>) -> (depth_map: Self)
        ensures
            depth_map@ == (Grid { rows: depths(map@), diagonal: false }),
    {
        Self { map, diagonal_neighbours: false }
    }

    /// Chooses whether the diagonal neighbours count; the cells stay.
    pub fn set_diagonal_neighbours(&mut self, diagonal_neighbours: bool)
        ensures
            final(self)@ == old(self)@.with_diagonal(diagonal_neighbours),
    {
        self.diagonal_neighbours = diagonal_neighbours;
    }

    /// The depth at column `x` of row `y`, or `None` where the map has no
    /// such cell.
    pub fn get(&self, x: usize, y: usize) -> (depth: Option<u8>)
        ensures
            match depth {
                Some(d) => self@.depth(x as int, y as int) == Some(d as nat),
                None => self@.depth(x as int, y as int) is None,
            },
    {
        if y < self.map.len() {
            let row = &self.map[y];
            if x < row.len() {
                return Some(row[x]);
            }
        }
        None
    }

    /// The offsets from a cell to its neighbours: the four orthogonal ones,
    /// then, if they count, the four diagonal ones.
    fn neighbours(&self) -> (offsets: Vec<(isize, isize)>)
        ensures
            offsets_agree(offsets@, self@.offsets()),
    {
        let mut result: Vec<(isize, isize)> = vec![(0, -1), (1, 0), (0, 1), (-1, 0)];
        if self.diagonal_neighbours {
            let mut diagonal: Vec<(isize, isize)> = vec![(1, -1), (1, 1), (-1, 1), (-1, -1)];
            result.append(&mut diagonal);
        }
        result
    }

    /// Whether the cell that lies `offset` away from `(x, y)` is present and
    /// of depth `depth`.
    fn neighbour_is(&self, x: usize, y: usize, offset: (isize, isize), depth: u8) -> (same: bool)
        requires
            -1 <= offset.0 <= 1,
            -1 <= offset.1 <= 1,
        ensures
            same == self@.level(x + offset.0, y + offset.1, depth as nat),
    {
        let height = self.map.len();
        match shifted(y, offset.1) {
            Some(ny) => {
                if ny < height {
                    let row = &self.map[ny];
                    let width = row.len();
                    match shifted(x, offset.0) {
                        Some(nx) => nx < width && row[nx] == depth,
                        None => false,
                    }
                } else {
                    false
                }
            },
            None => false,
        }
    }

    /// Whether the next pass raises the cell at `(x, y)`.
    fn is_matched(&self, offsets: &Vec<(isize, isize)>, x: usize, y: usize) -> (matched: bool)
        requires
            self@.present(x as int, y as int),
            offsets_agree(offsets@, self@.offsets()),
        ensures
            matched == self@.matched(x as int, y as int),
    {
        let depth = self.map[y][x];
        if depth == 0 {
            return false;
        }
        let ghost spec_offsets = self@.offsets();
        let mut i: usize = 0;
        while i < offsets.len()
            invariant
                0 <= i <= offsets@.len(),
                self@.present(x as int, y as int),
                depth as nat == self@.rows[y as int][x as int],
                spec_offsets == self@.offsets(),
                offsets_agree(offsets@, spec_offsets),
                forall|j: int|
                    0 <= j < i ==> self@.depth(
                        x + (#[trigger] spec_offsets[j]).0,
                        y + spec_offsets[j].1,
                    ) == Some(depth as nat),
            decreases offsets@.len() - i,
        {
            let offset = offsets[i];
            proof {
                assert(-1 <= spec_offsets[i as int].0 <= 1 && -1 <= spec_offsets[i as int].1
                    <= 1) by {
                    lemma_offsets_are_steps(self@, i as int);
                }
            }
            if !self.neighbour_is(x, y, offset, depth) {
                return false;
            }
            i += 1;
        }
        true
    }

    /// Row `y` as the next pass leaves it, and the number of its cells that
    /// the pass raises; `None` where one of those cells is already at the
    /// greatest depth a cell can hold.
    fn next_row(&self, offsets: &Vec<(isize, isize)>, y: usize) -> (next: Option<
        (Vec<u8>, usize),
    >)
        requires
            y < self@.rows.len(),
            offsets_agree(offsets@, self@.offsets()),
        ensures
            match next {
                Some((row, raised)) => {
                    &&& row@.len() == self@.rows[y as int].len()
                    &&& forall|x: int|
                        0 <= x < row@.len() ==> (#[trigger] row@[x]) as nat == self@.next_depth(
                            x,
                            y as int,
                        )
                    &&& raised == self@.raised_in_row()(y as int)
                    &&& forall|x: int|
                        self@.matched(x, y as int) ==> self@.rows[y as int][x] < u8::MAX
                },
                None => exists|x: int|
                    self@.matched(x, y as int) && self@.rows[y as int][x] >= u8::MAX,
            },
    {
        let width = self.map[y].len();
        let mut row: Vec<u8> = Vec::new();
        let mut raised: usize = 0;
        let mut x: usize = 0;
        while x < width
            invariant
                0 <= x <= width,
                y < self@.rows.len(),
                width == self@.rows[y as int].len(),
                width == self.map@[y as int]@.len(),
                offsets_agree(offsets@, self@.offsets()),
                row@.len() == x,
                forall|i: int|
                    0 <= i < x ==> (#[trigger] row@[i]) as nat == self@.next_depth(i, y as int),
                raised == sum_below(x as int, self@.raised_at(y as int)),
                raised <= x,
                forall|i: int|
                    0 <= i < x && self@.matched(i, y as int) ==> self@.rows[y as int][i]
                        < u8::MAX,
            decreases width - x,
        {
            let depth = self.map[y][x];
            if self.is_matched(offsets, x, y) {
                if depth == u8::MAX {
                    return None;
                }
                row.push(depth + 1);
                raised += 1;
            } else {
                row.push(depth);
            }
            x += 1;
        }
        Some((row, raised))
    }

    /// One pass of erosion, if it stays within the machine's integers.
    ///
    /// Every cell is judged on the map as it stands before the pass: the
    /// pass reads the old map only and builds the new one beside it. The
    /// result is the number of cells raised. Where a cell to be raised is
    /// already at the greatest depth a cell can hold, or the cells raised
    /// are too many to count, the result is `None` and the map is left as
    /// it was.
    pub fn try_dig(&mut self) -> (raised: Option<usize>)
        ensures
            match raised {
                Some(count) => {
                    &&& old(self)@.can_dig()
                    &&& final(self)@ == old(self)@.pass()
                    &&& count == old(self)@.raised()
                },
                None => !old(self)@.can_dig() && final(self)@ == old(self)@,
            },
    {
        let offsets = self.neighbours();
        let height = self.map.len();
        let mut next: Vec<Vec<u8>> = Vec::new();
        let mut raised: usize = 0;
        let mut y: usize = 0;
        while y < height
            invariant
                0 <= y <= height,
                height == self@.rows.len(),
                self == old(self),
                offsets_agree(offsets@, self@.offsets()),
                next@.len() == y,
                forall|j: int|
                    0 <= j < y ==> (#[trigger] next@[j])@.len() == self@.rows[j].len(),
                forall|i: int, j: int|
                    0 <= j < y && 0 <= i < self@.rows[j].len() ==> (#[trigger] next@[j]@[i]) as nat
                        == self@.next_depth(i, j),
                raised == sum_below(y as int, self@.raised_in_row()),
                forall|i: int, j: int|
                    0 <= j < y && self@.matched(i, j) ==> self@.rows[j][i] < u8::MAX,
            decreases height - y,
        {
            match self.next_row(&offsets, y) {
                Some((row, raised_in_row)) => {
                    match raised.checked_add(raised_in_row) {
                        Some(sum) => {
                            raised = sum;
                        },
                        None => {
                            proof {
                                lemma_sum_prefix(
                                    y as int + 1,
                                    height as int,
                                    self@.raised_in_row(),
                                );
                            }
                            return None;
                        },
                    }
                    next.push(row);
                },
                None => {
                    return None;
                },
            }
            y += 1;
        }
        proof {
            let before = self@;
            let after = Grid { rows: depths(next@), diagonal: self.diagonal_neighbours };
            assert forall|j: int| 0 <= j < height implies #[trigger] after.rows[j]
                == before.pass().rows[j] by {
            }
            assert(after.rows =~= before.pass().rows);
        }
        self.map = next;
        Some(raised)
    }

    /// One pass of erosion: raises by one the depth of every occupied cell
    /// whose neighbours are all present and exactly as deep as the cell, each
    /// cell judged on the map as it stood before the pass, and returns the
    /// number of cells raised.
    ///
    /// The pass must stay within the machine's integers; [`Self::try_dig`]
    /// is the same pass without that demand.
    pub fn dig(&mut self) -> (raised: usize)
        requires
            old(self)@.can_dig(),
        ensures
            final(self)@ == old(self)@.pass(),
            raised == old(self)@.raised(),
            raised == 0 <==> final(self)@ == old(self)@,
    {
        proof {
            laws::lemma_raised_zero(self@);
            laws::lemma_pass_total(self@);
            if self@.stable() {
                laws::lemma_stable_pass(self@);
            }
        }
        match self.try_dig() {
            Some(raised) => raised,
            None => 0,
        }
    }

    /// Erodes the map until it is stable: repeats the pass until one raises
    /// no cell.
    ///
    /// The result says whether that was done. It is `false` where a pass on
    /// the way would leave the machine's integers; the map is then left as
    /// it stood before the first such pass.
    pub fn erode(&mut self) -> (done: bool)
        ensures
            done <==> old(self)@.can_erode(),
            done ==> final(self)@ == old(self)@.eroded(),
            !done ==> exists|passes: nat|
                {
                    &&& final(self)@ == #[trigger] old(self)@.after(passes)
                    &&& !final(self)@.can_dig()
                    &&& forall|earlier: nat|
                        earlier < passes ==> (#[trigger] old(self)@.after(earlier)).can_dig()
                },
    {
        let ghost start = self@;
        let ghost mut passes: nat = 0;
        loop
            invariant
                start == old(self)@,
                self@ == start.after(passes),
                passes <= start.rows.len(),
                forall|earlier: nat|
                    earlier < passes ==> (#[trigger] start.after(earlier)).can_dig(),
            decreases start.rows.len() - passes,
        {
            match self.try_dig() {
                None => {
                    return false;
                },
                Some(raised) => {
                    if raised == 0 {
                        proof {
                            laws::lemma_raised_zero(start.after(passes));
                            laws::lemma_stable_pass(start.after(passes));
                            laws::lemma_stable_is_eroded(start, passes);
                            laws::lemma_stable_can_erode(start, passes);
                        }
                        return true;
                    }
                    proof {
                        let now = start.after(passes);
                        laws::lemma_raised_zero(now);
                        let (x, y) = choose|x: int, y: int| now.matched(x, y);
                        laws::lemma_matched_margin(start, passes, x, y);
                        passes = passes + 1;
                    }
                },
            }
        }
    }

    /// Draws the map as text, for a reader to follow the erosion: a cell of
    /// depth 0 as `.`, any other cell as its depth in upper-case
    /// hexadecimal, and a newline after each row.
    pub fn render(&self) -> (text: String)
        ensures
            text@ == self@.rendered(),
    {
        let height = self.map.len();
        let mut text = String::new();
        let mut y: usize = 0;
        while y < height
            invariant
                0 <= y <= height,
                height == self@.rows.len(),
                text@ == rows_text(self@.rows.take(y as int)),
            decreases height - y,
        {
            let row = &self.map[y];
            let width = row.len();
            let ghost above = text@;
            let mut x: usize = 0;
            while x < width
                invariant
                    0 <= x <= width,
                    y < height,
                    height == self@.rows.len(),
                    row == self.map@[y as int],
                    width == self@.rows[y as int].len(),
                    text@ == above + row_text(self@.rows[y as int].take(x as int)),
                decreases width - x,
            {
                let depth = row[x];
                proof {
                    let longer = self@.rows[y as int].take(x + 1);
                    assert(longer.drop_last() =~= self@.rows[y as int].take(x as int));
                    reveal_strlit(".");
                }
                if depth == 0 {
                    text.append(".");
                } else {
                    let digits = upper_hex_string(depth);
                    text.append(digits.as_str());
                }
                x += 1;
            }
            proof {
                let longer = self@.rows.take(y + 1);
                assert(longer.drop_last() =~= self@.rows.take(y as int));
                assert(self@.rows[y as int].take(width as int) =~= self@.rows[y as int]);
                reveal_strlit("\n");
            }
            text.append("\n");
            y += 1;
        }
        assert(self@.rows.take(height as int) =~= self@.rows);
        text
    }

    /// The sum of the depths of row `y`, if it fits in a `usize`.
    fn checked_row_sum(&self, y: usize) -> (total: Option<usize>)
        requires
            y < self@.rows.len(),
        ensures
            match total {
                Some(t) => t == self@.row_total()(y as int),
                None => self@.row_total()(y as int) > usize::MAX,
            },
    {
        let row = &self.map[y];
        let width = row.len();
        let mut total: usize = 0;
        let mut x: usize = 0;
        while x < width
            invariant
                0 <= x <= width,
                y < self@.rows.len(),
                row == self.map@[y as int],
                width == self@.rows[y as int].len(),
                total == sum_below(x as int, self@.depth_at(y as int)),
            decreases width - x,
        {
            let depth = row[x];
            match total.checked_add(depth as usize) {
                Some(sum) => {
                    total = sum;
                },
                None => {
                    proof {
                        lemma_sum_prefix(x as int + 1, width as int, self@.depth_at(y as int));
                    }
                    return None;
                },
            }
            x += 1;
        }
        Some(total)
    }

    /// The sum of all depths, or `None` if it does not fit in a `usize`.
    pub fn checked_sum(&self) -> (total: Option<usize>)
        ensures
            match total {
                Some(t) => t == self@.total(),
                None => self@.total() > usize::MAX,
            },
    {
        let height = self.map.len();
        let mut total: usize = 0;
        let mut y: usize = 0;
        while y < height
            invariant
                0 <= y <= height,
                height == self@.rows.len(),
                total == sum_below(y as int, self@.row_total()),
            decreases height - y,
        {
            let sum = match self.checked_row_sum(y) {
                Some(row_total) => total.checked_add(row_total),
                None => None,
            };
            match sum {
                Some(sum) => {
                    total = sum;
                },
                None => {
                    proof {
                        lemma_sum_prefix(y as int + 1, height as int, self@.row_total());
                    }
                    return None;
                },
            }
            y += 1;
        }
        Some(total)
    }

    /// The sum of all depths, which must fit in a `usize`.
    pub fn sum(&self) -> (total: usize)
        requires
            self@.total() <= usize::MAX,
        ensures
            total == self@.total(),
    {
        match self.checked_sum() {
            Some(total) => total,
            None => 0,
        }
    }

    /// The bounding box of the occupied cells, as `(min_x, min_y, max_x,
    /// max_y)`; `None` where no cell is occupied.
    fn find_bounds(&self) -> (found: Option<(usize, usize, usize, usize)>)
        ensures
            match found {
                Some(edges) => self@.bounded_by(bounds_of(edges)),
                None => forall|x: int, y: int| !self@.occupied(x, y),
            },
    {
        let height = self.map.len();
        let mut found: Option<(usize, usize, usize, usize)> = None;
        let ghost mut touch = Bounds { min_x: 0, min_y: 0, max_x: 0, max_y: 0 };
        let mut y: usize = 0;
        while y < height
            invariant
                0 <= y <= height,
                height == self@.rows.len(),
                scanned(self@, found, touch, 0, y as int),
            decreases height - y,
        {
            let row = &self.map[y];
            let width = row.len();
            let mut x: usize = 0;
            while x < width
                invariant
                    0 <= x <= width,
                    y < height,
                    height == self@.rows.len(),
                    row == self.map@[y as int],
                    width == self@.rows[y as int].len(),
                    scanned(self@, found, touch, x as int, y as int),
                decreases width - x,
            {
                if row[x] > 0 {
                    let edges = match found {
                        Some((min_x, min_y, max_x, max_y)) => (
                            if x < min_x {
                                x
                            } else {
                                min_x
                            },
                            if y < min_y {
                                y
                            } else {
                                min_y
                            },
                            if x > max_x {
                                x
                            } else {
                                max_x
                            },
                            if y > max_y {
                                y
                            } else {
                                max_y
                            },
                        ),
                        None => (x, y, x, y),
                    };
                    proof {
                        touch =
                        match found {
                            Some((min_x, min_y, max_x, max_y)) => Bounds {
                                min_x: if x < min_x {
                                    y as int
                                } else {
                                    touch.min_x
                                },
                                min_y: if y < min_y {
                                    x as int
                                } else {
                                    touch.min_y
                                },
                                max_x: if x > max_x {
                                    y as int
                                } else {
                                    touch.max_x
                                },
                                max_y: if y > max_y {
                                    x as int
                                } else {
                                    touch.max_y
                                },
                            },
                            None => Bounds {
                                min_x: y as int,
                                min_y: x as int,
                                max_x: y as int,
                                max_y: x as int,
                            },
                        };
                    }
                    found = Some(edges);
                }
                x += 1;
            }
            y += 1;
        }
        proof {
            match found {
                Some(edges) => {
                    let bounds = bounds_of(edges);
                    assert(self@.occupied(bounds.min_x, touch.min_x));
                    assert(self@.occupied(bounds.max_x, touch.max_x));
                    assert(self@.occupied(touch.min_y, bounds.min_y));
                    assert(self@.occupied(touch.max_y, bounds.max_y));
                },
                None => {},
            }
        }
        found
    }

    /// The rows of the map inside the box with the given edges.
    fn crop(&self, edges: (usize, usize, usize, usize)) -> (rows: Vec<Vec<u8>>)
        requires
            edges.1 <= edges.3 < self@.rows.len(),
            edges.0 <= edges.2 < usize::MAX,
        ensures
            depths(rows@) == self@.cropped(bounds_of(edges)).rows,
    {
        let (min_x, min_y, max_x, max_y) = edges;
        let height = self.map.len();
        let ghost cropped = self@.cropped(bounds_of(edges));
        let mut trimmed: Vec<Vec<u8>> = Vec::new();
        let mut y: usize = min_y;
        while y <= max_y
            invariant
                min_y <= y <= max_y + 1,
                max_y < height,
                height == self@.rows.len(),
                min_x <= max_x < usize::MAX,
                edges == (min_x, min_y, max_x, max_y),
                cropped == self@.cropped(bounds_of(edges)),
                trimmed@.len() == y - min_y,
                forall|j: int|
                    0 <= j < y - min_y ==> depths(trimmed@)[j] == #[trigger] cropped.rows[j],
            decreases max_y + 1 - y,
        {
            let row = &self.map[y];
            let width = row.len();
            let from = if min_x < width {
                min_x
            } else {
                width
            };
            let to = if max_x + 1 < width {
                max_x + 1
            } else {
                width
            };
            let kept = slice_to_vec(slice_subrange(row.as_slice(), from, to));
            proof {
                let j = y - min_y;
                assert forall|i: int| 0 <= i < j implies depths(trimmed@.push(kept))[i]
                    == #[trigger] cropped.rows[i] by {
                }
            }
            trimmed.push(kept);
            y += 1;
        }
        trimmed
    }

    /// Cuts the map down to the bounding box of its occupied cells, both
    /// edges included; a map without an occupied cell becomes a single cell
    /// of depth 0. A row that ends before the right edge of the box stays as
    /// short as it is.
    pub fn trim(&mut self)
        ensures
            final(self)@ == old(self)@.trimmed(),
    {
        match self.find_bounds() {
            Some(edges) => {
                proof {
                    let bounds = bounds_of(edges);
                    bounds::lemma_bounding_box_is(self@, bounds);
                    let top = choose|x: int| self@.occupied(x, bounds.min_y);
                    let bottom = choose|x: int| self@.occupied(x, bounds.max_y);
                    let right = choose|y: int| self@.occupied(bounds.max_x, y);
                    assert(self@.occupied(top, bounds.min_y));
                    assert(self@.occupied(bottom, bounds.max_y));
                    assert(self@.occupied(bounds.max_x, right));
                    assert(self.map@[right]@.len() == self.map@[right].len());
                }
                let trimmed = self.crop(edges);
                self.map = trimmed;
            },
            None => {
                proof {
                    bounds::lemma_bounding_box_exists(self@);
                }
                let mut row: Vec<u8> = Vec::new();
                row.push(0);
                let mut trimmed: Vec<Vec<u8>> = Vec::new();
                trimmed.push(row);
                assert(depths(trimmed@) =~= Grid::flat(self.diagonal_neighbours).rows) by {
                    assert(depths(trimmed@)[0] =~= seq![0nat]);
                }
                self.map = trimmed;
            },
        }
    }
}

/// The box with the given edges `(min_x, min_y, max_x, max_y)`.
pub open spec fn bounds_of(edges: (usize, usize, usize, usize)) -> Bounds {
    Bounds {
        min_x: edges.0 as int,
        min_y: edges.1 as int,
        max_x: edges.2 as int,
        max_y: edges.3 as int,
    }
}

/// Whether `found` bounds the occupied cells that come before `(x, y)` in
/// reading order, with `touch` naming, for each edge, a cell on it: the row
/// of one on the left edge in `min_x`, the column of one on the top edge in
/// `min_y`, and so on.
spec fn scanned(
    g: Grid,
    found: Option<(usize, usize, usize, usize)>,
    touch: Bounds,
    x: int,
    y: int,
) -> bool {
    match found {
        Some(edges) => {
            &&& forall|i: int, j: int| #[trigger]
                g.occupied(i, j) && (j < y || (j == y && i < x)) ==> edges.0 <= i <= edges.2
                    && edges.1 <= j <= edges.3
            &&& g.occupied(edges.0 as int, touch.min_x)
            &&& g.occupied(edges.2 as int, touch.max_x)
            &&& g.occupied(touch.min_y, edges.1 as int)
            &&& g.occupied(touch.max_y, edges.3 as int)
        },
        None => forall|i: int, j: int| #[trigger]
            g.occupied(i, j) ==> !(j < y || (j == y && i < x)),
    }
}

/// Every offset is a step of at most one in each direction.
proof fn lemma_offsets_are_steps(g: Grid, i: int)
    requires
        0 <= i < g.offsets().len(),
    ensures
        -1 <= g.offsets()[i].0 <= 1,
        -1 <= g.offsets()[i].1 <= 1,
{
}

} // verus!
