//! A floor plan of paper rolls: a roll can be removed where fewer than four
//! rolls lie around it.

use crate::aoc_25::Error;
use crate::text::{chars_of, line_views, views};
use vstd::prelude::*;
use vstd::string::StringSliceAdditionalSpecFns;

verus! {

/// The character of the frame that is laid around the plan.
pub const BUFFER_CHAR: char = '=';

/// The character of a paper roll.
pub const PAPER_ROLL: char = '@';

/// A row of the frame with `width` cells.
pub open spec fn buffer_row(width: nat) -> Seq<char> {
    Seq::new(width, |i: int| BUFFER_CHAR)
}

/// A row of the plan with a cell of the frame on either side.
pub open spec fn buffered(row: Seq<char>) -> Seq<char> {
    seq![BUFFER_CHAR] + row + seq![BUFFER_CHAR]
}

/// The eight cells around the cell in row `r` and column `c`, row by row.
pub open spec fn cells_around(grid: Seq<Seq<char>>, r: int, c: int) -> Seq<char> {
    seq![
        grid[r - 1][c - 1],
        grid[r - 1][c],
        grid[r - 1][c + 1],
        grid[r][c - 1],
        grid[r][c + 1],
        grid[r + 1][c - 1],
        grid[r + 1][c],
        grid[r + 1][c + 1],
    ]
}

/// The cell in row `r` and column `c` has all eight cells around it.
pub open spec fn has_cells_around(grid: Seq<Seq<char>>, r: int, c: int) -> bool {
    &&& 1 <= r
    &&& r + 1 < grid.len()
    &&& 1 <= c
    &&& c + 1 < grid[r - 1].len()
    &&& c + 1 < grid[r].len()
    &&& c + 1 < grid[r + 1].len()
}

/// What is looked at around the cell in row `r` and column `c`: nothing for a
/// cell of the frame, else the eight cells around it.
pub open spec fn neighbors_of(grid: Seq<Seq<char>>, r: int, c: int) -> Seq<char> {
    if grid[r][c] == BUFFER_CHAR {
        Seq::empty()
    } else {
        cells_around(grid, r, c)
    }
}

/// The number of paper rolls among the cells.
pub open spec fn rolls_among(cells: Seq<char>) -> nat
    decreases cells.len(),
{
    if cells.len() == 0 {
        0
    } else {
        rolls_among(cells.drop_last()) + if cells.last() == PAPER_ROLL {
            1nat
        } else {
            0nat
        }
    }
}

/// Fewer than four paper rolls are looked at around the cell.
pub open spec fn removable(grid: Seq<Seq<char>>, r: int, c: int) -> bool {
    rolls_among(neighbors_of(grid, r, c)) < 4
}

/// The cell holds a paper roll that can be removed.
pub open spec fn removable_roll(grid: Seq<Seq<char>>, r: int, c: int) -> bool {
    grid[r][c] == PAPER_ROLL && removable(grid, r, c)
}

/// The removable rolls of row `r` in the columns from 1 up to `c`, `c` itself
/// left out.
pub open spec fn removable_in_row(grid: Seq<Seq<char>>, r: int, c: int) -> nat
    decreases c,
{
    if c <= 1 {
        0
    } else {
        removable_in_row(grid, r, c - 1) + if removable_roll(grid, r, c - 1) {
            1nat
        } else {
            0nat
        }
    }
}

/// The removable rolls of the rows from 1 up to `r`, `r` itself left out. The
/// first row and the first column belong to the frame and are not looked at.
pub open spec fn removable_in_rows(grid: Seq<Seq<char>>, r: int) -> nat
    decreases r,
{
    if r <= 1 {
        0
    } else {
        removable_in_rows(grid, r - 1) + removable_in_row(grid, r - 1, grid[r - 1].len() as int)
    }
}

/// The removable rolls of the whole plan.
pub open spec fn removable_count(grid: Seq<Seq<char>>) -> nat {
    removable_in_rows(grid, grid.len() as int)
}

/// Every paper roll that is looked at has all eight cells around it.
pub open spec fn walkable(grid: Seq<Seq<char>>) -> bool {
    forall|r: int, c: int|
        1 <= r < grid.len() && 1 <= c < grid[r].len() && #[trigger] grid[r][c] == PAPER_ROLL
            ==> has_cells_around(grid, r, c)
}

/// A place in the plan: its row and its column.
pub struct Position(pub usize, pub usize);

impl Position {
    pub fn row(&self) -> (r: usize)
        ensures
            r == self.0,
    {
        self.0
    }

    pub fn column(&self) -> (c: usize)
        ensures
            c == self.1,
    {
        self.1
    }
}

/// The plan with a frame around it, so that every cell of the plan has cells
/// on all sides.
#[derive(Debug, PartialEq)]
pub struct PaperRollGrid {
    pub buffered_grid: Vec<Vec<char>>,
}

impl PaperRollGrid {
    /// The rows of the plan, the frame included.
    pub open spec fn rows(&self) -> Seq<Seq<char>> {
        views(self.buffered_grid@)
    }

    /// The frame of a plan that is `size` cells wide, with no row in it yet.
    pub fn new(size: usize) -> (r: Self)
        requires
            size + 2 <= usize::MAX,
        ensures
            r.rows() == seq![buffer_row((size + 2) as nat), buffer_row((size + 2) as nat)],
    {
        // the upper and the lower edge of the frame
        let mut first: Vec<char> = Vec::new();
        let mut last: Vec<char> = Vec::new();
        let mut i: usize = 0;
        while i < size + 2
            invariant
                i <= size + 2 <= usize::MAX,
                first@ == buffer_row(i as nat),
                last@ == buffer_row(i as nat),
            decreases size + 2 - i,
        {
            first.push(BUFFER_CHAR);
            last.push(BUFFER_CHAR);
            i += 1;
        }
        let mut buffered_grid: Vec<Vec<char>> = Vec::new();
        buffered_grid.push(first);
        buffered_grid.push(last);
        let r = Self { buffered_grid };
        assert(r.rows() == seq![buffer_row((size + 2) as nat), buffer_row((size + 2) as nat)]);
        r
    }

    /// Lays a row of the plan above the lower edge of the frame.
    pub fn add_row(&mut self, row: &str)
        requires
            old(self).buffered_grid@.len() >= 1,
        ensures
            final(self).rows() == old(self).rows().insert(
                old(self).rows().len() - 1,
                buffered(row@),
            ),
    {
        let current_size: usize = self.buffered_grid.len();
        let cells = chars_of(row);
        let mut buffered_row: Vec<char> = Vec::new();
        buffered_row.push(BUFFER_CHAR);
        let mut i: usize = 0;
        while i < cells.len()
            invariant
                i <= cells.len(),
                buffered_row@ == seq![BUFFER_CHAR] + cells@.take(i as int),
            decreases cells.len() - i,
        {
            buffered_row.push(cells[i]);
            i += 1;
        }
        buffered_row.push(BUFFER_CHAR);
        assert(cells@.take(i as int) == cells@);
        assert(buffered_row@ == buffered(row@));
        self.buffered_grid.insert(current_size - 1, buffered_row);
        assert(final(self).rows() == old(self).rows().insert(
            old(self).rows().len() - 1,
            buffered(row@),
        ));
    }

    /// Whether every paper roll that is looked at has cells on all sides.
    pub fn is_walkable(&self) -> (b: bool)
        ensures
            b == walkable(self.rows()),
    {
        let ghost grid = self.rows();
        let rows: usize = self.buffered_grid.len();
        let mut row: usize = 1;
        while row < rows
            invariant
                1 <= row,
                rows == self.buffered_grid@.len(),
                grid == self.rows(),
                forall|r: int, c: int|
                    1 <= r < row && 1 <= c < grid[r].len() && #[trigger] grid[r][c] == PAPER_ROLL
                        ==> has_cells_around(grid, r, c),
            decreases rows - row,
        {
            let width: usize = self.buffered_grid[row].len();
            let mut column: usize = 1;
            while column < width
                invariant
                    1 <= column,
                    1 <= row < rows,
                    rows == self.buffered_grid@.len(),
                    grid == self.rows(),
                    width == grid[row as int].len(),
                    forall|r: int, c: int|
                        1 <= r < row && 1 <= c < grid[r].len() && #[trigger] grid[r][c]
                            == PAPER_ROLL ==> has_cells_around(grid, r, c),
                    forall|c: int|
                        1 <= c < column && #[trigger] grid[row as int][c] == PAPER_ROLL
                            ==> has_cells_around(grid, row as int, c),
                decreases width - column,
            {
                if self.buffered_grid[row][column] == PAPER_ROLL {
                    let fits: bool = row + 1 < rows && column + 1 < self.buffered_grid[row
                        - 1].len() && column + 1 < width && column + 1 < self.buffered_grid[row
                        + 1].len();
                    if !fits {
                        assert(grid[row as int][column as int] == PAPER_ROLL);
                        assert(!has_cells_around(grid, row as int, column as int));
                        return false;
                    }
                }
                column += 1;
            }
            row += 1;
        }
        true
    }

    /// The cells that are looked at around `position`.
    pub fn neighbors(&self, position: Position) -> (r: Vec<char>)
        requires
            position.0 < self.rows().len(),
            position.1 < self.rows()[position.0 as int].len(),
            self.rows()[position.0 as int][position.1 as int] != BUFFER_CHAR ==> has_cells_around(
                self.rows(),
                position.0 as int,
                position.1 as int,
            ),
        ensures
            r@ == neighbors_of(self.rows(), position.0 as int, position.1 as int),
    {
        let mut neighbors: Vec<char> = Vec::new();
        let ghost grid = self.rows();
        // nothing is looked at around a cell of the frame
        if self.buffered_grid[position.row()][position.column()] == BUFFER_CHAR {
            return neighbors;
        }
        let row: usize = position.row();
        let column: usize = position.column();
        let height: usize = self.buffered_grid.len();
        assert(row + 1 < height);
        let above: usize = self.buffered_grid[row - 1].len();
        let beside: usize = self.buffered_grid[row].len();
        let below: usize = self.buffered_grid[row + 1].len();
        assert(grid[row - 1] == self.buffered_grid@[row - 1]@);
        assert(grid[row as int] == self.buffered_grid@[row as int]@);
        assert(grid[row + 1] == self.buffered_grid@[row + 1]@);
        assert(column + 1 < above && column + 1 < beside && column + 1 < below);
        neighbors.push(self.buffered_grid[row - 1][column - 1]);
        neighbors.push(self.buffered_grid[row - 1][column]);
        neighbors.push(self.buffered_grid[row - 1][column + 1]);
        neighbors.push(self.buffered_grid[row][column - 1]);
        neighbors.push(self.buffered_grid[row][column + 1]);
        neighbors.push(self.buffered_grid[row + 1][column - 1]);
        neighbors.push(self.buffered_grid[row + 1][column]);
        neighbors.push(self.buffered_grid[row + 1][column + 1]);
        assert(neighbors@ == cells_around(grid, row as int, column as int));
        neighbors
    }

    /// Whether fewer than four paper rolls are looked at around `position`.
    pub fn is_removable(&self, position: Position) -> (r: bool)
        requires
            position.0 < self.rows().len(),
            position.1 < self.rows()[position.0 as int].len(),
            self.rows()[position.0 as int][position.1 as int] != BUFFER_CHAR ==> has_cells_around(
                self.rows(),
                position.0 as int,
                position.1 as int,
            ),
        ensures
            r == removable(self.rows(), position.0 as int, position.1 as int),
    {
        let neighbors = self.neighbors(position);
        let mut paper_rolls: usize = 0;
        let mut i: usize = 0;
        while i < neighbors.len()
            invariant
                i <= neighbors.len(),
                paper_rolls == rolls_among(neighbors@.take(i as int)),
                paper_rolls <= i,
            decreases neighbors.len() - i,
        {
            assert(neighbors@.take(i + 1).drop_last() == neighbors@.take(i as int));
            if neighbors[i] == PAPER_ROLL {
                paper_rolls += 1;
            }
            i += 1;
        }
        assert(neighbors@.take(i as int) == neighbors@);
        paper_rolls < 4
    }

    /// The number of rolls that can be removed, unless a roll lacks a cell
    /// beside it or the number is too large for an `i64`.
    pub fn checked_removable_rolls(&self) -> (r: Result<i64, Error>)
        ensures
            r == if !walkable(self.rows()) {
                Err::<i64, Error>(Error::InvalidInput)
            } else if removable_count(self.rows()) > i64::MAX {
                Err(Error::Overflow)
            } else {
                Ok(removable_count(self.rows()) as i64)
            },
    {
        if !self.is_walkable() {
            return Err(Error::InvalidInput);
        }
        let ghost grid = self.rows();
        let mut removable_rolls: i64 = 0;
        let rows: usize = self.buffered_grid.len();
        // the first row and the first column belong to the frame
        let mut row: usize = 1;
        while row < rows
            invariant
                1 <= row,
                rows == self.buffered_grid@.len(),
                row <= rows || row == 1,
                grid == self.rows(),
                walkable(grid),
                removable_rolls == removable_in_rows(grid, row as int),
            decreases rows - row,
        {
            let width: usize = self.buffered_grid[row].len();
            let mut column: usize = 1;
            while column < width
                invariant
                    1 <= column,
                    column <= width || column == 1,
                    1 <= row < rows,
                    rows == self.buffered_grid@.len(),
                    grid == self.rows(),
                    walkable(grid),
                    width == grid[row as int].len(),
                    removable_rolls == removable_in_rows(grid, row as int) + removable_in_row(
                        grid,
                        row as int,
                        column as int,
                    ),
                decreases width - column,
            {
                if self.buffered_grid[row][column] == PAPER_ROLL && self.is_removable(
                    Position(row, column),
                ) {
                    if removable_rolls == i64::MAX {
                        proof {
                            lemma_removable_in_row_grows(grid, row as int, column + 1, width as int);
                            lemma_removable_in_rows_grows(grid, row + 1, rows as int);
                        }
                        return Err(Error::Overflow);
                    }
                    removable_rolls += 1;
                }
                column += 1;
            }
            assert(removable_in_row(grid, row as int, column as int) == removable_in_row(
                grid,
                row as int,
                width as int,
            )) by {
                if width == 0 {
                    assert(removable_in_row(grid, row as int, 1) == 0);
                    assert(removable_in_row(grid, row as int, 0) == 0);
                }
            }
            row += 1;
        }
        assert(removable_in_rows(grid, row as int) == removable_count(grid)) by {
            if rows == 0 {
                assert(removable_in_rows(grid, 1) == 0);
                assert(removable_in_rows(grid, 0) == 0);
            }
        }
        Ok(removable_rolls)
    }

    /// The number of rolls that can be removed.
    pub fn removable_rolls(&self) -> (r: i64)
        requires
            walkable(self.rows()),
            removable_count(self.rows()) <= i64::MAX,
        ensures
            r == removable_count(self.rows()),
    {
        match self.checked_removable_rolls() {
            Ok(count) => count,
            Err(_) => 0,
        }
    }
}

/// Further columns add to the removable rolls of a row.
pub proof fn lemma_removable_in_row_grows(grid: Seq<Seq<char>>, r: int, c: int, d: int)
    requires
        c <= d,
    ensures
        removable_in_row(grid, r, c) <= removable_in_row(grid, r, d),
    decreases d - c,
{
    if c < d {
        lemma_removable_in_row_grows(grid, r, c, d - 1);
    }
}

/// Further rows add to the removable rolls of a plan.
pub proof fn lemma_removable_in_rows_grows(grid: Seq<Seq<char>>, r: int, s: int)
    requires
        r <= s,
    ensures
        removable_in_rows(grid, r) <= removable_in_rows(grid, s),
    decreases s - r,
{
    if r < s {
        lemma_removable_in_rows_grows(grid, r, s - 1);
    }
}

/// The rows of the plan that the lines draw, each with a cell of the frame on
/// either side.
pub open spec fn buffered_rows(lines: Seq<Seq<char>>) -> Seq<Seq<char>> {
    Seq::new(lines.len(), |i: int| buffered(lines[i]))
}

/// The width of the plan: the number of bytes of its first line.
pub open spec fn plan_width(lines: Seq<Seq<char>>) -> nat {
    vstd::utf8::encode_utf8(lines[0]).len()
}

/// The plan that the lines draw, with its frame.
pub open spec fn framed(lines: Seq<Seq<char>>) -> Seq<Seq<char>> {
    seq![buffer_row(plan_width(lines) + 2)] + buffered_rows(lines) + seq![
        buffer_row(plan_width(lines) + 2),
    ]
}

impl PaperRollGrid {
    /// The plan that the lines draw. There has to be a first line, which gives
    /// the width of the frame.
    pub open spec fn of_lines(lines: Seq<Seq<char>>) -> Result<Seq<Seq<char>>, Error> {
        if lines.len() == 0 {
            Err(Error::InvalidInput)
        } else if plan_width(lines) + 2 > usize::MAX {
            Err(Error::Overflow)
        } else {
            Ok(framed(lines))
        }
    }

    /// Lays out the plan that the lines draw.
    pub fn try_from_lines(lines: &Vec<String>) -> (r: Result<PaperRollGrid, Error>)
        ensures
            match r {
                Ok(grid) => Self::of_lines(line_views(lines@)) == Ok::<Seq<Seq<char>>, Error>(
                    grid.rows(),
                ),
                Err(e) => Self::of_lines(line_views(lines@)) == Err::<Seq<Seq<char>>, Error>(e),
            },
    {
        if lines.len() == 0 {
            return Err(Error::InvalidInput);
        }
        let ghost texts = line_views(lines@);
        let size: usize = lines[0].as_str().as_bytes().len();
        assert(lines@[0]@ == texts[0]);
        assert(size == plan_width(texts));
        if size > usize::MAX - 2 {
            return Err(Error::Overflow);
        }
        let mut grid = PaperRollGrid::new(size);
        let ghost edge = buffer_row((size + 2) as nat);
        let mut i: usize = 0;
        assert(grid.rows() == seq![edge] + buffered_rows(texts).take(0) + seq![edge]);
        while i < lines.len()
            invariant
                i <= lines.len(),
                texts == line_views(lines@),
                grid.rows() == seq![edge] + buffered_rows(texts).take(i as int) + seq![edge],
            decreases lines.len() - i,
        {
            let ghost before = grid.rows();
            assert(before.len() == grid.buffered_grid@.len());
            assert(before.len() == i + 2);
            grid.add_row(lines[i].as_str());
            assert(grid.rows() == seq![edge] + buffered_rows(texts).take(i + 1) + seq![edge]) by {
                assert(before.len() == i + 2);
                assert(buffered_rows(texts).take(i + 1) == buffered_rows(texts).take(
                    i as int,
                ).push(buffered(texts[i as int])));
            }
            i += 1;
        }
        assert(buffered_rows(texts).take(i as int) == buffered_rows(texts));
        Ok(grid)
    }
}

/// The input of this day.
pub const DAY_04_FILE: &'static str = "./resources/aoc_25/day_04.txt";

/// The day: the file that holds its input, and the answer of its one part.
pub struct Day04Processor(pub String);

impl Day04Processor {
    pub fn new() -> (r: Self)
        ensures
            r.0@ == DAY_04_FILE@,
    {
        Self(DAY_04_FILE.to_owned())
    }

    /// The answer of part one: the number of rolls of the plan that can be
    /// removed.
    pub open spec fn answer(lines: Seq<Seq<char>>) -> Result<i64, Error> {
        match PaperRollGrid::of_lines(lines) {
            Err(e) => Err(e),
            Ok(grid) => if !walkable(grid) {
                Err(Error::InvalidInput)
            } else if removable_count(grid) > i64::MAX {
                Err(Error::Overflow)
            } else {
                Ok(removable_count(grid) as i64)
            },
        }
    }

    /// Works out the day for the lines of the input.
    pub fn process(&self, lines: &Vec<String>) -> (r: Result<i64, Error>)
        ensures
            r == Self::answer(line_views(lines@)),
    {
        self.process_part1(lines)
    }

    /// The answer of part one for the lines of the input.
    pub fn process_part1(&self, lines: &Vec<String>) -> (r: Result<i64, Error>)
        ensures
            r == Self::answer(line_views(lines@)),
    {
        match PaperRollGrid::try_from_lines(lines) {
            Ok(grid) => grid.checked_removable_rolls(),
            Err(e) => Err(e),
        }
    }
}

impl Default for Day04Processor {
    fn default() -> (r: Self)
        ensures
            r.0@ == DAY_04_FILE@,
    {
        Self::new()
    }
}


/// In a plan whose lines all have as many cells as the frame is wide, every
/// roll has cells on all sides: such a plan has an answer, unless the answer
/// is too large for an `i64`.
pub proof fn lemma_even_plan_is_walkable(lines: Seq<Seq<char>>)
    requires
        lines.len() >= 1,
        forall|i: int| 0 <= i < lines.len() ==> (#[trigger] lines[i]).len() == plan_width(lines),
    ensures
        walkable(framed(lines)),
        Day04Processor::answer(lines) is Ok || Day04Processor::answer(lines) == Err::<i64, Error>(
            Error::Overflow,
        ),
{
    let grid = framed(lines);
    let width = plan_width(lines);
    let height = lines.len();
    assert(grid.len() == height + 2);
    assert forall|r: int| 0 <= r < grid.len() implies (#[trigger] grid[r]).len() == width + 2 by {
        if 1 <= r <= height {
            assert(grid[r] == buffered(lines[r - 1]));
        }
    }
    assert forall|r: int, c: int|
        1 <= r < grid.len() && 1 <= c < grid[r].len() && #[trigger] grid[r][c]
            == PAPER_ROLL implies has_cells_around(grid, r, c) by {
        if r == height + 1 {
            assert(grid[r] == buffer_row(width + 2));
        } else {
            assert(grid[r] == buffered(lines[r - 1]));
            assert(grid[r - 1].len() == width + 2);
            assert(grid[r + 1].len() == width + 2);
        }
    }
}


} // verus!
