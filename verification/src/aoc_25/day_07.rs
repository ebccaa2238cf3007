//! A beam falls through a manifold and is split wherever it meets a splitter:
//! how often it is split, and on how many paths it can reach the bottom.

use crate::aoc_25::Error;
use crate::text::{chars_of, first_index, line_views, views};
use std::collections::HashSet;
use vstd::prelude::*;

verus! {

broadcast use vstd::std_specs::hash::group_hash_axioms;

/// The character at which the beam enters.
pub const ENTRY: char = 'S';

/// The character of a splitter.
pub const SPLITTER: char = '^';

/// The character of an empty cell.
pub const EMPTY: char = '.';

/// The columns in which the beam runs once it has entered through the row:
/// the first entry of the row is added to the columns given.
pub open spec fn entered(row: Seq<char>, active: Set<usize>) -> Set<usize> {
    let at = first_index(row, ENTRY);
    if 0 <= at < row.len() {
        active.insert(at as usize)
    } else {
        active
    }
}

/// The last column of the manifold: that of its first row.
pub open spec fn right_edge(diagram: Seq<Seq<char>>) -> usize {
    if diagram.len() > 0 && diagram[0].len() > 0 {
        (diagram[0].len() - 1) as usize
    } else {
        0
    }
}

/// The columns in which the beam runs and the number of splits, after a
/// splitter in column `idx` has been met. A beam in that column is split: it
/// goes on in the columns beside it, as far as they are not below 0 or above
/// `right`, and leaves its own column.
pub open spec fn split_step(state: (Set<usize>, int), right: usize, idx: usize) -> (Set<usize>, int) {
    let (active, splits) = state;
    if active.contains(idx) {
        let with_left = if idx > 0 {
            active.insert((idx - 1) as usize)
        } else {
            active
        };
        let with_right = if idx < right {
            with_left.insert((idx + 1) as usize)
        } else {
            with_left
        };
        (with_right.remove(idx), splits + 1)
    } else {
        state
    }
}

/// The state after the first `k` cells of a row, from the left.
pub open spec fn row_state(row: Seq<char>, right: usize, state: (Set<usize>, int), k: nat) -> (
    Set<usize>,
    int,
)
    decreases k,
{
    if k == 0 {
        state
    } else {
        let before = row_state(row, right, state, (k - 1) as nat);
        if row[k - 1] == SPLITTER {
            split_step(before, right, (k - 1) as usize)
        } else {
            before
        }
    }
}

/// The state after the rows from the second up to row `k`, `k` itself left
/// out.
pub open spec fn rows_state(
    diagram: Seq<Seq<char>>,
    right: usize,
    state: (Set<usize>, int),
    k: nat,
) -> (Set<usize>, int)
    decreases k,
{
    if k <= 1 {
        state
    } else {
        row_state(
            diagram[k - 1],
            right,
            rows_state(diagram, right, state, (k - 1) as nat),
            diagram[k - 1].len(),
        )
    }
}

/// The state after the beam has entered through the first row and fallen
/// through all the others.
pub open spec fn traversed(diagram: Seq<Seq<char>>, right: usize, state: (Set<usize>, int)) -> (
    Set<usize>,
    int,
) {
    rows_state(diagram, right, (entered(diagram[0], state.0), state.1), diagram.len())
}

/// Splits are only ever added within a row.
pub proof fn lemma_row_state_grows(row: Seq<char>, right: usize, state: (Set<usize>, int), k: nat, n: nat)
    requires
        k <= n,
    ensures
        row_state(row, right, state, k).1 <= row_state(row, right, state, n).1,
        state.1 <= row_state(row, right, state, k).1,
    decreases n,
{
    if k < n {
        lemma_row_state_grows(row, right, state, k, (n - 1) as nat);
    } else if k > 0 {
        lemma_row_state_grows(row, right, state, (k - 1) as nat, (k - 1) as nat);
    }
}

/// Splits are only ever added from row to row.
pub proof fn lemma_rows_state_grows(
    diagram: Seq<Seq<char>>,
    right: usize,
    state: (Set<usize>, int),
    k: nat,
    n: nat,
)
    requires
        k <= n,
    ensures
        rows_state(diagram, right, state, k).1 <= rows_state(diagram, right, state, n).1,
        state.1 <= rows_state(diagram, right, state, k).1,
    decreases n,
{
    if k < n {
        lemma_rows_state_grows(diagram, right, state, k, (n - 1) as nat);
        if n > 1 {
            lemma_row_state_grows(
                diagram[n - 1],
                right,
                rows_state(diagram, right, state, (n - 1) as nat),
                0,
                diagram[n - 1].len(),
            );
        }
    } else if k > 1 {
        lemma_rows_state_grows(diagram, right, state, (k - 1) as nat, (k - 1) as nat);
        lemma_row_state_grows(
            diagram[k - 1],
            right,
            rows_state(diagram, right, state, (k - 1) as nat),
            0,
            diagram[k - 1].len(),
        );
    }
}

/// Follows the beam: the columns in which it runs, and how often it was
/// split.
#[derive(Debug, PartialEq)]
pub struct BeamTracker {
    pub splits: i64,
    pub right_index: usize,
    pub traversal_indexes: HashSet<usize>,
}

impl BeamTracker {
    /// The columns in which the beam runs, and the number of splits.
    pub open spec fn state(&self) -> (Set<usize>, int) {
        (self.traversal_indexes@, self.splits as int)
    }

    pub fn new(right_index: usize) -> (r: Self)
        ensures
            r.state() == (Set::<usize>::empty(), 0int),
            r.right_index == right_index,
    {
        Self { splits: 0, traversal_indexes: HashSet::new(), right_index }
    }

    /// Lets the beam in at the first entry of the row.
    pub fn init(&mut self, row: Vec<char>)
        ensures
            final(self).traversal_indexes@ == entered(row@, old(self).traversal_indexes@),
            final(self).splits == old(self).splits,
            final(self).right_index == old(self).right_index,
    {
        let mut pos: usize = 0;
        while pos < row.len()
            invariant
                pos <= row.len(),
                forall|j: int| 0 <= j < pos ==> row@[j] != ENTRY,
                self.traversal_indexes@ == old(self).traversal_indexes@,
                self.splits == old(self).splits,
                self.right_index == old(self).right_index,
            decreases row.len() - pos,
        {
            if row[pos] == ENTRY {
                proof {
                    crate::text::lemma_first_index(row@, ENTRY, pos as int);
                }
                self.traversal_indexes.insert(pos);
                return ;
            }
            pos += 1;
        }
        proof {
            crate::text::lemma_first_index(row@, ENTRY, pos as int);
        }
    }

    /// Splits the beam at a splitter in column `idx`, if it runs there.
    pub fn split(&mut self, idx: usize)
        requires
            old(self).traversal_indexes@.contains(idx) ==> old(self).splits < i64::MAX,
        ensures
            final(self).state() == split_step(old(self).state(), old(self).right_index, idx),
            final(self).right_index == old(self).right_index,
    {
        // a splitter that the beam does not meet does nothing
        if self.traversal_indexes.contains(&idx) {
            self.splits += 1;
            // the beam goes on to the left, unless this is the first column
            if idx > 0 {
                self.traversal_indexes.insert(idx - 1);
            }
            // and to the right, unless this is the right edge
            if idx < self.right_index {
                self.traversal_indexes.insert(idx + 1);
            }
            // and it leaves the column of the splitter
            self.traversal_indexes.remove(&idx);
        }
    }
}

/// The input of the day: the rows of the manifold.
#[derive(Debug, PartialEq)]
pub struct Day07Input {
    pub lines: Vec<Vec<char>>,
}

impl Day07Input {
    /// The rows that the lines draw.
    pub fn from_lines(lines: &Vec<String>) -> (r: Self)
        ensures
            views(r.lines@) == line_views(lines@),
    {
        let mut rows: Vec<Vec<char>> = Vec::new();
        let mut i: usize = 0;
        while i < lines.len()
            invariant
                i <= lines.len(),
                views(rows@) == line_views(lines@).take(i as int),
            decreases lines.len() - i,
        {
            let row = chars_of(lines[i].as_str());
            assert(views(rows@.push(row)) == views(rows@).push(row@));
            assert(line_views(lines@).take(i + 1) == line_views(lines@).take(i as int).push(
                lines@[i as int]@,
            ));
            rows.push(row);
            i += 1;
        }
        assert(line_views(lines@).take(i as int) == line_views(lines@));
        Self { lines: rows }
    }
}

/// The manifold, and the tracker that follows the beam through it.
#[derive(Debug, PartialEq)]
pub struct TachyonManifold {
    pub diagram: Vec<Vec<char>>,
    pub tracker: BeamTracker,
}

impl TachyonManifold {
    /// The rows of the manifold.
    pub open spec fn rows(&self) -> Seq<Seq<char>> {
        views(self.diagram@)
    }

    /// The manifold of the input, with a tracker that has seen nothing yet
    /// and that lets the beam run up to the last column of the first row.
    pub fn create(input: Day07Input) -> (r: Self)
        ensures
            r.diagram == input.lines,
            r.tracker.state() == (Set::<usize>::empty(), 0int),
            r.tracker.right_index == right_edge(views(input.lines@)),
    {
        let right_index: usize = if input.lines.len() > 0 && input.lines[0].len() > 0 {
            input.lines[0].len() - 1
        } else {
            0
        };
        assert(input.lines@.len() > 0 ==> views(input.lines@)[0] == input.lines@[0]@);
        Self { diagram: input.lines, tracker: BeamTracker::new(right_index) }
    }

    /// Lets the beam fall through row `row_idx`.
    pub fn traverse(&mut self, row_idx: usize)
        requires
            row_idx < old(self).diagram@.len(),
            row_state(
                old(self).rows()[row_idx as int],
                old(self).tracker.right_index,
                old(self).tracker.state(),
                old(self).rows()[row_idx as int].len(),
            ).1 <= i64::MAX,
        ensures
            final(self).diagram == old(self).diagram,
            final(self).tracker.right_index == old(self).tracker.right_index,
            final(self).tracker.state() == row_state(
                old(self).rows()[row_idx as int],
                old(self).tracker.right_index,
                old(self).tracker.state(),
                old(self).rows()[row_idx as int].len(),
            ),
    {
        let ghost row = self.rows()[row_idx as int];
        let ghost right = self.tracker.right_index;
        let ghost start = self.tracker.state();
        let width: usize = self.diagram[row_idx].len();
        let mut pos: usize = 0;
        while pos < width
            invariant
                pos <= width,
                row_idx < self.diagram@.len(),
                self.diagram == old(self).diagram,
                row == old(self).rows()[row_idx as int],
                row == self.diagram@[row_idx as int]@,
                width == row.len(),
                right == old(self).tracker.right_index,
                self.tracker.right_index == right,
                start == old(self).tracker.state(),
                self.tracker.state() == row_state(row, right, start, pos as nat),
                row_state(row, right, start, row.len()).1 <= i64::MAX,
            decreases width - pos,
        {
            if self.diagram[row_idx][pos] == SPLITTER {
                proof {
                    lemma_row_state_grows(row, right, start, (pos + 1) as nat, row.len());
                }
                self.tracker.split(pos);
            }
            pos += 1;
        }
    }

    /// The number of splits when the beam enters through the first row and
    /// falls through all the others.
    pub fn traversal_splits(&mut self) -> (r: i64)
        requires
            old(self).diagram@.len() >= 1,
            traversed(old(self).rows(), old(self).tracker.right_index, old(self).tracker.state()).1
                <= i64::MAX,
        ensures
            final(self).diagram == old(self).diagram,
            final(self).tracker.right_index == old(self).tracker.right_index,
            final(self).tracker.state() == traversed(
                old(self).rows(),
                old(self).tracker.right_index,
                old(self).tracker.state(),
            ),
            r == final(self).tracker.splits,
    {
        let ghost diagram = self.rows();
        let ghost right = self.tracker.right_index;
        let first: Vec<char> = self.diagram[0].clone();
        assert(first@ == diagram[0]);
        self.tracker.init(first);
        let ghost start = self.tracker.state();
        let mut idx: usize = 1;
        while idx < self.diagram.len()
            invariant
                1 <= idx <= self.diagram@.len(),
                self.diagram == old(self).diagram,
                diagram == old(self).rows(),
                diagram == self.rows(),
                right == old(self).tracker.right_index,
                self.tracker.right_index == right,
                start == (entered(diagram[0], old(self).tracker.state().0), old(self).tracker.state().1),
                self.tracker.state() == rows_state(diagram, right, start, idx as nat),
                rows_state(diagram, right, start, diagram.len()).1 <= i64::MAX,
            decreases self.diagram@.len() - idx,
        {
            proof {
                lemma_rows_state_grows(diagram, right, start, (idx + 1) as nat, diagram.len());
            }
            self.traverse(idx);
            idx += 1;
        }
        self.tracker.splits
    }

    /// The number of splits of a traversal, unless it is too large for an
    /// `i64`.
    pub fn checked_traversal_splits(&mut self) -> (r: Option<i64>)
        requires
            old(self).diagram@.len() >= 1,
        ensures
            final(self).diagram == old(self).diagram,
            final(self).tracker.right_index == old(self).tracker.right_index,
            match r {
                Some(splits) => final(self).tracker.state() == traversed(
                    old(self).rows(),
                    old(self).tracker.right_index,
                    old(self).tracker.state(),
                ) && splits == final(self).tracker.splits,
                None => traversed(
                    old(self).rows(),
                    old(self).tracker.right_index,
                    old(self).tracker.state(),
                ).1 > i64::MAX,
            },
    {
        let ghost diagram = self.rows();
        let ghost right = self.tracker.right_index;
        let first: Vec<char> = self.diagram[0].clone();
        assert(first@ == diagram[0]);
        self.tracker.init(first);
        let ghost start = self.tracker.state();
        let mut idx: usize = 1;
        while idx < self.diagram.len()
            invariant
                1 <= idx <= self.diagram@.len(),
                self.diagram == old(self).diagram,
                diagram == old(self).rows(),
                diagram == self.rows(),
                right == old(self).tracker.right_index,
                self.tracker.right_index == right,
                start == (entered(diagram[0], old(self).tracker.state().0), old(self).tracker.state().1),
                self.tracker.state() == rows_state(diagram, right, start, idx as nat),
            decreases self.diagram@.len() - idx,
        {
            let ghost before = self.tracker.state();
            let ghost row = diagram[idx as int];
            let width: usize = self.diagram[idx].len();
            let mut pos: usize = 0;
            while pos < width
                invariant
                    pos <= width,
                    1 <= idx < self.diagram@.len(),
                    self.diagram == old(self).diagram,
                    diagram == old(self).rows(),
                    diagram == self.rows(),
                    row == diagram[idx as int],
                    row == self.diagram@[idx as int]@,
                    width == row.len(),
                    right == old(self).tracker.right_index,
                    self.tracker.right_index == right,
                    start == (
                        entered(diagram[0], old(self).tracker.state().0),
                        old(self).tracker.state().1,
                    ),
                    before == rows_state(diagram, right, start, idx as nat),
                    self.tracker.state() == row_state(row, right, before, pos as nat),
                decreases width - pos,
            {
                if self.diagram[idx][pos] == SPLITTER {
                    if self.tracker.traversal_indexes.contains(&pos) && self.tracker.splits
                        == i64::MAX {
                        proof {
                            lemma_row_state_grows(row, right, before, (pos + 1) as nat, row.len());
                            lemma_rows_state_grows(
                                diagram,
                                right,
                                start,
                                (idx + 1) as nat,
                                diagram.len(),
                            );
                        }
                        return None;
                    }
                    self.tracker.split(pos);
                }
                pos += 1;
            }
            idx += 1;
        }
        Some(self.tracker.splits)
    }
}

/// The answer of part one.
#[derive(Clone, Copy, Debug, PartialEq, Eq, Structural)]
pub struct PartOneValue(pub i64);

impl PartOneValue {
    pub fn get(&self) -> (v: i64)
        ensures
            v == self.0,
    {
        self.0
    }

    /// The number of splits of the beam in the manifold that the lines draw.
    /// There has to be a first row, through which the beam enters.
    pub open spec fn of_lines(lines: Seq<Seq<char>>) -> Result<PartOneValue, Error> {
        if lines.len() == 0 {
            Err(Error::InvalidInput)
        } else {
            let splits = traversed(lines, right_edge(lines), (Set::<usize>::empty(), 0int)).1;
            if splits > i64::MAX {
                Err(Error::Overflow)
            } else {
                Ok(PartOneValue(splits as i64))
            }
        }
    }

    /// Reads the lines and counts the splits.
    pub fn try_from_lines(lines: &Vec<String>) -> (r: Result<PartOneValue, Error>)
        ensures
            r == Self::of_lines(line_views(lines@)),
    {
        let input = Day07Input::from_lines(lines);
        if input.lines.len() == 0 {
            assert(line_views(lines@).len() == 0);
            return Err(Error::InvalidInput);
        }
        assert(line_views(lines@).len() == input.lines@.len());
        let mut manifold = TachyonManifold::create(input);
        match manifold.checked_traversal_splits() {
            Some(splits) => Ok(Self(splits)),
            None => Err(Error::Overflow),
        }
    }
}

/// A grid of `rows` rows and `columns` columns that holds 0 everywhere.
pub open spec fn zeros(rows: nat, columns: nat) -> Seq<Seq<i64>> {
    Seq::new(rows, |i: int| Seq::new(columns, |j: int| 0i64))
}

/// The rows of a grid of numbers.
pub open spec fn grid_views(grid: Seq<Vec<i64>>) -> Seq<Seq<i64>> {
    Seq::new(grid.len(), |i: int| grid[i]@)
}

/// The grid has `rows` rows of `columns` numbers each.
pub open spec fn rectangular(grid: Seq<Seq<i64>>, rows: nat, columns: nat) -> bool {
    grid.len() == rows && forall|i: int| 0 <= i < rows ==> (#[trigger] grid[i]).len() == columns
}

/// The grid with `value` in row `row` and column `col`.
pub open spec fn with_cell(grid: Seq<Seq<i64>>, row: int, col: int, value: i64) -> Seq<Seq<i64>> {
    grid.update(row, grid[row].update(col, value))
}

/// The grid after `add` paths have arrived in row `row` and column `idx`,
/// unless their number leaves `i64`.
pub open spec fn bumped(grid: Seq<Seq<i64>>, row: int, idx: int, add: i64) -> Result<
    Seq<Seq<i64>>,
    Error,
> {
    let sum = add + grid[row][idx];
    if sum > i64::MAX || sum < i64::MIN {
        Err(Error::Overflow)
    } else if sum >= grid[row][idx] {
        Ok(with_cell(grid, row, idx, sum as i64))
    } else {
        Ok(grid)
    }
}

/// The grid after the cell in row `row` and column `col` of the diagram has
/// been looked at. Through an entry one path comes in. An empty cell below
/// the first row takes the paths of the cell above it. A splitter hands the
/// paths of the cell above it to the cells on its left and on its right, as
/// far as the grid has them: at an edge of the grid only the one neighbour
/// takes the paths, and in the first row no path reaches the splitter. A cell
/// that lies outside the grid that the first row spans is invalid input.
pub open spec fn cell_step(diagram: Seq<Seq<char>>, grid: Seq<Seq<i64>>, row: int, col: int) -> Result<
    Seq<Seq<i64>>,
    Error,
> {
    let value = diagram[row][col];
    let width = grid[row].len();
    if value == ENTRY {
        if col < width {
            Ok(with_cell(grid, row, col, 1i64))
        } else {
            Err(Error::InvalidInput)
        }
    } else if value == EMPTY && row > 0 {
        if col < width {
            let sum = grid[row][col] + grid[row - 1][col];
            if sum > i64::MAX || sum < i64::MIN {
                Err(Error::Overflow)
            } else {
                Ok(with_cell(grid, row, col, sum as i64))
            }
        } else {
            Err(Error::InvalidInput)
        }
    } else if value == SPLITTER {
        if col >= width {
            Err(Error::InvalidInput)
        } else if row < 1 {
            Ok(grid)
        } else {
            let above = grid[row - 1][col];
            let left = if col >= 1 {
                bumped(grid, row, col - 1, above)
            } else {
                Ok(grid)
            };
            match left {
                Err(e) => Err(e),
                Ok(middle) => if col + 1 < width {
                    bumped(middle, row, col + 1, above)
                } else {
                    Ok(middle)
                },
            }
        }
    } else {
        Ok(grid)
    }
}

/// The grid after the first `k` cells of row `row`, from the left.
pub open spec fn paths_row(diagram: Seq<Seq<char>>, grid: Seq<Seq<i64>>, row: int, k: nat) -> Result<
    Seq<Seq<i64>>,
    Error,
>
    decreases k,
{
    if k == 0 {
        Ok(grid)
    } else {
        match paths_row(diagram, grid, row, (k - 1) as nat) {
            Err(e) => Err(e),
            Ok(before) => cell_step(diagram, before, row, k - 1),
        }
    }
}

/// The grid after the first `k` rows, from the top.
pub open spec fn paths_rows(diagram: Seq<Seq<char>>, grid: Seq<Seq<i64>>, k: nat) -> Result<
    Seq<Seq<i64>>,
    Error,
>
    decreases k,
{
    if k == 0 {
        Ok(grid)
    } else {
        match paths_rows(diagram, grid, (k - 1) as nat) {
            Err(e) => Err(e),
            Ok(before) => paths_row(diagram, before, k - 1, diagram[k - 1].len()),
        }
    }
}

/// The number of paths on which the beam reaches the last row of the diagram:
/// the numbers of the last row of the grid, added up.
pub open spec fn path_count(diagram: Seq<Seq<char>>) -> Result<i64, Error> {
    if diagram.len() == 0 {
        Err(Error::InvalidInput)
    } else {
        match paths_rows(diagram, zeros(diagram.len(), diagram[0].len()), diagram.len()) {
            Err(e) => Err(e),
            Ok(grid) => match crate::text::checked_sum(grid[diagram.len() - 1]) {
                Some(total) => Ok(total as i64),
                None => Err(Error::Overflow),
            },
        }
    }
}

/// Once a cell has stopped the work, those behind it in the row do not change
/// the outcome.
pub proof fn lemma_paths_row_error(
    diagram: Seq<Seq<char>>,
    grid: Seq<Seq<i64>>,
    row: int,
    k: nat,
    n: nat,
)
    requires
        k <= n,
        paths_row(diagram, grid, row, k) is Err,
    ensures
        paths_row(diagram, grid, row, n) == paths_row(diagram, grid, row, k),
    decreases n - k,
{
    if k < n {
        lemma_paths_row_error(diagram, grid, row, k, (n - 1) as nat);
    }
}

/// Once a row has stopped the work, those below it do not change the outcome.
pub proof fn lemma_paths_rows_error(diagram: Seq<Seq<char>>, grid: Seq<Seq<i64>>, k: nat, n: nat)
    requires
        k <= n,
        paths_rows(diagram, grid, k) is Err,
    ensures
        paths_rows(diagram, grid, n) == paths_rows(diagram, grid, k),
    decreases n - k,
{
    if k < n {
        lemma_paths_rows_error(diagram, grid, k, (n - 1) as nat);
    }
}

/// Where a cell has stopped the work, the whole diagram ends as that cell
/// did.
pub proof fn lemma_paths_stop(
    diagram: Seq<Seq<char>>,
    start: Seq<Seq<i64>>,
    before: Seq<Seq<i64>>,
    row: nat,
    col: nat,
)
    requires
        row < diagram.len(),
        col < diagram[row as int].len(),
        paths_rows(diagram, start, row) == Ok::<Seq<Seq<i64>>, Error>(before),
        paths_row(diagram, before, row as int, (col + 1) as nat) is Err,
    ensures
        paths_rows(diagram, start, diagram.len()) == paths_row(
            diagram,
            before,
            row as int,
            (col + 1) as nat,
        ),
{
    lemma_paths_row_error(diagram, before, row as int, (col + 1) as nat, diagram[row as int].len());
    lemma_paths_rows_error(diagram, start, (row + 1) as nat, diagram.len());
}

/// The manifold in which every path of the beam is counted.
#[derive(Debug, PartialEq)]
pub struct QuantumTachyonManifold {
    pub diagram: Vec<Vec<char>>,
}

impl QuantumTachyonManifold {
    /// The rows of the manifold.
    pub open spec fn rows(&self) -> Seq<Seq<char>> {
        views(self.diagram@)
    }

    pub fn create(input: Day07Input) -> (r: Self)
        ensures
            r.diagram == input.lines,
    {
        Self { diagram: input.lines }
    }

    /// A grid of `rows` rows and `columns` columns that holds 0 everywhere.
    pub fn build_grid(rows: usize, columns: usize) -> (grid: Vec<Vec<i64>>)
        ensures
            grid_views(grid@) == zeros(rows as nat, columns as nat),
    {
        let mut grid: Vec<Vec<i64>> = Vec::new();
        let mut r: usize = 0;
        while r < rows
            invariant
                r <= rows,
                grid_views(grid@) == zeros(r as nat, columns as nat),
            decreases rows - r,
        {
            let mut cols: Vec<i64> = Vec::new();
            let mut c: usize = 0;
            while c < columns
                invariant
                    c <= columns,
                    cols@ == Seq::new(c as nat, |j: int| 0i64),
                decreases columns - c,
            {
                cols.push(0);
                c += 1;
            }
            assert(grid_views(grid@.push(cols)) == grid_views(grid@).push(cols@));
            grid.push(cols);
            r += 1;
            assert(grid_views(grid@) == zeros(r as nat, columns as nat));
        }
        grid
    }

    /// The number of paths across all timelines, or why it cannot be had:
    /// the diagram has no first row, a cell lies outside the grid that the
    /// first row spans, or a number leaves `i64`. A splitter at an edge of
    /// the grid hands its paths to the one neighbour that the grid has.
    pub fn checked_traverse_all(&self) -> (r: Result<i64, Error>)
        ensures
            r == path_count(self.rows()),
    {
        let ghost diagram = self.rows();
        let height: usize = self.diagram.len();
        if height == 0 {
            return Err(Error::InvalidInput);
        }
        let width: usize = self.diagram[0].len();
        assert(width == diagram[0].len());
        let mut grid = QuantumTachyonManifold::build_grid(height, width);
        let ghost start = grid_views(grid@);
        let mut row: usize = 0;
        while row < height
            invariant
                row <= height,
                height == self.diagram@.len(),
                height > 0,
                diagram == self.rows(),
                width == diagram[0].len(),
                start == zeros(height as nat, width as nat),
                rectangular(grid_views(grid@), height as nat, width as nat),
                paths_rows(diagram, start, row as nat) == Ok::<Seq<Seq<i64>>, Error>(
                    grid_views(grid@),
                ),
            decreases height - row,
        {
            let ghost before = grid_views(grid@);
            let length: usize = self.diagram[row].len();
            assert(length == diagram[row as int].len());
            let mut col: usize = 0;
            while col < length
                invariant
                    col <= length,
                    row < height,
                    height == self.diagram@.len(),
                    diagram == self.rows(),
                    length == diagram[row as int].len(),
                    width == diagram[0].len(),
                    start == zeros(height as nat, width as nat),
                    rectangular(grid_views(grid@), height as nat, width as nat),
                    paths_rows(diagram, start, row as nat) == Ok::<Seq<Seq<i64>>, Error>(before),
                    paths_row(diagram, before, row as int, col as nat) == Ok::<
                        Seq<Seq<i64>>,
                        Error,
                    >(grid_views(grid@)),
                decreases length - col,
            {
                let value: char = self.diagram[row][col];
                let ghost now = grid_views(grid@);
                assert(value == diagram[row as int][col as int]);
                assert(now[row as int].len() == width);
                assert(grid@[row as int]@ == now[row as int]);
                proof {
                    if row > 0 {
                        assert(now[row - 1].len() == width);
                        assert(grid@[row - 1]@ == now[row - 1]);
                    }
                }
                if value == ENTRY {
                    if col >= width {
                        proof {
                            lemma_paths_stop(diagram, start, before, row as nat, col as nat);
                        }
                        return Err(Error::InvalidInput);
                    }
                    grid[row][col] = 1;
                    assert(grid_views(grid@) == with_cell(now, row as int, col as int, 1i64));
                } else if value == EMPTY && row > 0 {
                    if col >= width {
                        proof {
                            lemma_paths_stop(diagram, start, before, row as nat, col as nat);
                        }
                        return Err(Error::InvalidInput);
                    }
                    let sum: i64 = match grid[row][col].checked_add(grid[row - 1][col]) {
                        Some(sum) => sum,
                        None => {
                            proof {
                                lemma_paths_stop(diagram, start, before, row as nat, col as nat);
                            }
                            return Err(Error::Overflow);
                        },
                    };
                    grid[row][col] = sum;
                    assert(grid_views(grid@) == with_cell(now, row as int, col as int, sum));
                } else if value == SPLITTER {
                    if col >= width {
                        proof {
                            lemma_paths_stop(diagram, start, before, row as nat, col as nat);
                        }
                        return Err(Error::InvalidInput);
                    }
                    if row >= 1 {
                        let above: i64 = grid[row - 1][col];
                        // the neighbour on the left, unless this is the first column
                        if col >= 1 {
                            let left: i64 = match above.checked_add(grid[row][col - 1]) {
                                Some(sum) => sum,
                                None => {
                                    proof {
                                        lemma_paths_stop(
                                            diagram,
                                            start,
                                            before,
                                            row as nat,
                                            col as nat,
                                        );
                                    }
                                    return Err(Error::Overflow);
                                },
                            };
                            if left >= grid[row][col - 1] {
                                grid[row][col - 1] = left;
                                assert(grid_views(grid@) == with_cell(
                                    now,
                                    row as int,
                                    col - 1,
                                    left,
                                ));
                            }
                            assert(bumped(now, row as int, col - 1, above) == Ok::<
                                Seq<Seq<i64>>,
                                Error,
                            >(grid_views(grid@)));
                        }
                        let ghost middle = grid_views(grid@);
                        assert(middle[row - 1][col as int] == above);
                        assert(grid@[row as int]@ == middle[row as int]);
                        // the neighbour on the right, unless this is the last column
                        if col + 1 < width {
                            let right: i64 = match above.checked_add(grid[row][col + 1]) {
                                Some(sum) => sum,
                                None => {
                                    proof {
                                        lemma_paths_stop(
                                            diagram,
                                            start,
                                            before,
                                            row as nat,
                                            col as nat,
                                        );
                                    }
                                    return Err(Error::Overflow);
                                },
                            };
                            if right >= grid[row][col + 1] {
                                grid[row][col + 1] = right;
                                assert(grid_views(grid@) == with_cell(
                                    middle,
                                    row as int,
                                    col + 1,
                                    right,
                                ));
                            }
                            assert(bumped(middle, row as int, col + 1, above) == Ok::<
                                Seq<Seq<i64>>,
                                Error,
                            >(grid_views(grid@)));
                        }
                    }
                }
                col += 1;
            }
            row += 1;
        }
        assert(grid_views(grid@)[height - 1] == grid@[height - 1]@);
        match crate::text::sum_i64(&grid[height - 1]) {
            Some(total) => Ok(total),
            None => Err(Error::Overflow),
        }
    }

    /// The number of paths on which the beam reaches the last row.
    pub fn traverse_all(&mut self) -> (r: i64)
        requires
            path_count(old(self).rows()) is Ok,
        ensures
            final(self).diagram == old(self).diagram,
            path_count(old(self).rows()) == Ok::<i64, Error>(r),
    {
        match self.checked_traverse_all() {
            Ok(total) => total,
            Err(_) => 0,
        }
    }
}

/// The answer of part two.
#[derive(Clone, Copy, Debug, PartialEq, Eq, Structural)]
pub struct PartTwoValue(pub i64);

impl PartTwoValue {
    pub fn get(&self) -> (v: i64)
        ensures
            v == self.0,
    {
        self.0
    }

    /// The number of paths of the beam through the manifold that the lines
    /// draw.
    pub open spec fn of_lines(lines: Seq<Seq<char>>) -> Result<PartTwoValue, Error> {
        match path_count(lines) {
            Ok(total) => Ok(PartTwoValue(total)),
            Err(e) => Err(e),
        }
    }

    /// Reads the lines and counts the paths.
    pub fn try_from_lines(lines: &Vec<String>) -> (r: Result<PartTwoValue, Error>)
        ensures
            r == Self::of_lines(line_views(lines@)),
    {
        let input = Day07Input::from_lines(lines);
        let manifold = QuantumTachyonManifold::create(input);
        match manifold.checked_traverse_all() {
            Ok(total) => Ok(Self(total)),
            Err(e) => Err(e),
        }
    }
}

/// The input of this day.
pub const DAY_07_FILE: &'static str = "./resources/aoc_25/day_07.txt";

/// The day: the file that holds its input, and the answers of both parts.
pub struct Day07Processor(pub String);

impl Day07Processor {
    pub fn new() -> (r: Self)
        ensures
            r.0@ == DAY_07_FILE@,
    {
        Self(DAY_07_FILE.to_owned())
    }

    /// The answers of both parts for the lines of the input.
    pub open spec fn answers(lines: Seq<Seq<char>>) -> (Result<i64, Error>, Result<i64, Error>) {
        (
            match PartOneValue::of_lines(lines) {
                Ok(v) => Ok(v.0),
                Err(e) => Err(e),
            },
            match PartTwoValue::of_lines(lines) {
                Ok(v) => Ok(v.0),
                Err(e) => Err(e),
            },
        )
    }

    /// Works out both parts for the lines of the input.
    pub fn process(&self, lines: &Vec<String>) -> (r: (Result<i64, Error>, Result<i64, Error>))
        ensures
            r == Self::answers(line_views(lines@)),
    {
        (self.process_part1(lines), self.process_part2(lines))
    }

    /// The answer of part one for the lines of the input.
    pub fn process_part1(&self, lines: &Vec<String>) -> (r: Result<i64, Error>)
        ensures
            r == Self::answers(line_views(lines@)).0,
    {
        match PartOneValue::try_from_lines(lines) {
            Ok(p1_value) => Ok(p1_value.get()),
            Err(e) => Err(e),
        }
    }

    /// The answer of part two for the lines of the input.
    pub fn process_part2(&self, lines: &Vec<String>) -> (r: Result<i64, Error>)
        ensures
            r == Self::answers(line_views(lines@)).1,
    {
        match PartTwoValue::try_from_lines(lines) {
            Ok(p2_value) => Ok(p2_value.get()),
            Err(e) => Err(e),
        }
    }
}

impl Default for Day07Processor {
    fn default() -> (r: Self)
        ensures
            r.0@ == DAY_07_FILE@,
    {
        Self::new()
    }
}


/// No row of the diagram holds a splitter.
pub open spec fn without_splitter(diagram: Seq<Seq<char>>) -> bool {
    forall|r: int, c: int|
        0 <= r < diagram.len() && 0 <= c < diagram[r].len() ==> #[trigger] diagram[r][c] != SPLITTER
}

/// A row without a splitter leaves the beam as it is.
pub proof fn lemma_row_without_splitter(row: Seq<char>, right: usize, state: (Set<usize>, int), k: nat)
    requires
        k <= row.len(),
        forall|c: int| 0 <= c < row.len() ==> #[trigger] row[c] != SPLITTER,
    ensures
        row_state(row, right, state, k) == state,
    decreases k,
{
    if k > 0 {
        lemma_row_without_splitter(row, right, state, (k - 1) as nat);
    }
}

/// Rows without a splitter leave the beam as it is.
pub proof fn lemma_rows_without_splitter(
    diagram: Seq<Seq<char>>,
    right: usize,
    state: (Set<usize>, int),
    k: nat,
)
    requires
        k <= diagram.len(),
        without_splitter(diagram),
    ensures
        rows_state(diagram, right, state, k) == state,
    decreases k,
{
    if k > 1 {
        lemma_rows_without_splitter(diagram, right, state, (k - 1) as nat);
        assert forall|c: int| 0 <= c < diagram[k - 1].len() implies #[trigger] diagram[k - 1][c]
            != SPLITTER by {
            assert(diagram[k - 1][c] != SPLITTER);
        }
        lemma_row_without_splitter(diagram[k - 1], right, state, diagram[k - 1].len());
    }
}

/// In a manifold without a splitter the beam is never split.
pub proof fn lemma_no_splitter_no_split(lines: Seq<Seq<char>>)
    requires
        lines.len() >= 1,
        without_splitter(lines),
    ensures
        PartOneValue::of_lines(lines) == Ok::<PartOneValue, Error>(PartOneValue(0)),
{
    let start = (entered(lines[0], Set::<usize>::empty()), 0int);
    lemma_rows_without_splitter(lines, right_edge(lines), start, lines.len());
}

/// A manifold of `width` columns whose one entry stands in the first row, in
/// column `entry`, and whose other cells are all empty.
pub open spec fn is_open_shaft(diagram: Seq<Seq<char>>, width: nat, entry: int) -> bool {
    &&& diagram.len() >= 1
    &&& 0 <= entry < width
    &&& forall|r: int| 0 <= r < diagram.len() ==> (#[trigger] diagram[r]).len() == width
    &&& forall|r: int, c: int|
        0 <= r < diagram.len() && 0 <= c < width ==> #[trigger] diagram[r][c] == if r == 0 && c
            == entry {
            ENTRY
        } else {
            EMPTY
        }
}

/// A row of the grid that holds one path in column `entry` if that column
/// lies before `upto`, and none elsewhere.
pub open spec fn shaft_row(width: nat, entry: int, upto: int) -> Seq<i64> {
    Seq::new(
        width,
        |c: int|
            if c == entry && c < upto {
                1i64
            } else {
                0i64
            },
    )
}

/// The grid of an open shaft when the rows above `row` are done and `row` is
/// done up to the column `upto`.
pub open spec fn shaft_grid(height: nat, width: nat, entry: int, row: int, upto: int) -> Seq<Seq<i64>> {
    Seq::new(
        height,
        |r: int|
            if r < row {
                shaft_row(width, entry, width as int)
            } else if r == row {
                shaft_row(width, entry, upto)
            } else {
                shaft_row(width, entry, 0)
            },
    )
}

/// In an open shaft every row takes over the one path of the row above.
pub proof fn lemma_shaft_row(diagram: Seq<Seq<char>>, width: nat, entry: int, row: int, upto: nat)
    requires
        is_open_shaft(diagram, width, entry),
        0 <= row < diagram.len(),
        upto <= width,
    ensures
        paths_row(diagram, shaft_grid(diagram.len(), width, entry, row, 0), row, upto) == Ok::<
            Seq<Seq<i64>>,
            Error,
        >(shaft_grid(diagram.len(), width, entry, row, upto as int)),
    decreases upto,
{
    let height = diagram.len();
    if upto > 0 {
        lemma_shaft_row(diagram, width, entry, row, (upto - 1) as nat);
        let col = upto - 1;
        let before = shaft_grid(height, width, entry, row, col);
        let after = shaft_grid(height, width, entry, row, upto as int);
        assert(diagram[row][col] == if row == 0 && col == entry {
            ENTRY
        } else {
            EMPTY
        });
        assert(before[row].len() == width);
        if row == 0 && col == entry {
            assert(with_cell(before, row, col, 1i64) =~~= after);
        } else if row > 0 {
            assert(before[row][col] == 0);
            assert(before[row - 1] == shaft_row(width, entry, width as int));
            let sum = before[row][col] + before[row - 1][col];
            assert(with_cell(before, row, col, sum as i64) =~~= after);
        } else {
            assert(before =~~= after);
        }
    } else {
        assert(shaft_grid(height, width, entry, row, 0) =~~= shaft_grid(
            height,
            width,
            entry,
            row,
            upto as int,
        ));
    }
}

/// In an open shaft the one path comes down row by row.
pub proof fn lemma_shaft_rows(diagram: Seq<Seq<char>>, width: nat, entry: int, rows: nat)
    requires
        is_open_shaft(diagram, width, entry),
        rows <= diagram.len(),
    ensures
        paths_rows(diagram, zeros(diagram.len(), width), rows) == Ok::<Seq<Seq<i64>>, Error>(
            shaft_grid(diagram.len(), width, entry, rows as int, 0),
        ),
    decreases rows,
{
    let height = diagram.len();
    if rows == 0 {
        assert(zeros(height, width) =~~= shaft_grid(height, width, entry, 0, 0));
    } else {
        lemma_shaft_rows(diagram, width, entry, (rows - 1) as nat);
        lemma_shaft_row(diagram, width, entry, rows - 1, width);
        assert(shaft_grid(height, width, entry, rows - 1, width as int) =~~= shaft_grid(
            height,
            width,
            entry,
            rows as int,
            0,
        ));
    }
}

/// The paths of a row of the shaft add up to one, if the column of the entry
/// is among those added.
pub proof fn lemma_shaft_row_sum(width: nat, entry: int, k: nat)
    requires
        0 <= entry < width,
        k <= width,
    ensures
        crate::text::checked_sum(shaft_row(width, entry, width as int).take(k as int)) == Some(
            if entry < k {
                1int
            } else {
                0int
            },
        ),
    decreases k,
{
    let row = shaft_row(width, entry, width as int);
    if k > 0 {
        lemma_shaft_row_sum(width, entry, (k - 1) as nat);
        assert(row.take(k as int).drop_last() == row.take(k - 1));
        assert(row.take(k as int).last() == row[k - 1]);
    }
}

/// Through a manifold without a splitter, where the beam enters in the first
/// row and all else is empty, there is one path.
pub proof fn lemma_no_splitter_one_path(lines: Seq<Seq<char>>, width: nat, entry: int)
    requires
        is_open_shaft(lines, width, entry),
    ensures
        PartTwoValue::of_lines(lines) == Ok::<PartTwoValue, Error>(PartTwoValue(1)),
        PartOneValue::of_lines(lines) == Ok::<PartOneValue, Error>(PartOneValue(0)),
{
    let height = lines.len();
    lemma_shaft_rows(lines, width, entry, height);
    let grid = shaft_grid(height, width, entry, height as int, 0);
    assert(grid[height - 1] == shaft_row(width, entry, width as int));
    lemma_shaft_row_sum(width, entry, width);
    assert(shaft_row(width, entry, width as int).take(width as int) == shaft_row(
        width,
        entry,
        width as int,
    ));
    assert(without_splitter(lines)) by {
        assert forall|r: int, c: int|
            0 <= r < lines.len() && 0 <= c < lines[r].len() implies #[trigger] lines[r][c]
            != SPLITTER by {
            assert(lines[r].len() == width);
        }
    }
    lemma_no_splitter_no_split(lines);
}


} // verus!
