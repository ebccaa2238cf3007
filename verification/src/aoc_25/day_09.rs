//! Red tiles on a floor: the largest rectangle that has two of them as
//! opposite corners.

use crate::aoc_25::Error;
use crate::text::{chars_of, collect_all, line_views, parse_usize, parse_usize_spec, split, split_at_char};
use vstd::prelude::*;

verus! {

/// A tile: its column and its row.
#[derive(Clone, Copy, Debug, PartialEq)]
pub struct Point(pub usize, pub usize);

/// The distance between two coordinates.
pub open spec fn span(a: usize, b: usize) -> int {
    if a >= b {
        a - b
    } else {
        b - a
    }
}

/// The number of tiles of the rectangle that has `a` and `b` as opposite
/// corners, both included.
pub open spec fn area(a: Point, b: Point) -> int {
    (span(a.1, b.1) + 1) * (span(a.0, b.0) + 1)
}

/// Every pair of the points spans a rectangle whose area an `i64` holds.
pub open spec fn areas_fit(points: Seq<Point>) -> bool {
    forall|i: int, j: int| 0 <= i < j < points.len() ==> #[trigger] area(points[i], points[j]) <= i64::MAX
}

/// `r` is the largest area that a pair of the points spans, or 0 where there
/// is no pair.
pub open spec fn is_largest_area(points: Seq<Point>, r: int) -> bool {
    &&& forall|i: int, j: int| 0 <= i < j < points.len() ==> #[trigger] area(points[i], points[j]) <= r
    &&& if points.len() < 2 {
        r == 0
    } else {
        exists|i: int, j: int| 0 <= i < j < points.len() && #[trigger] area(points[i], points[j]) == r
    }
}

/// The distance between two coordinates.
pub fn distance(a: usize, b: usize) -> (d: usize)
    ensures
        d == span(a, b),
{
    if a >= b {
        a - b
    } else {
        b - a
    }
}

impl Point {
    pub fn row(&self) -> (r: usize)
        ensures
            r == self.1,
    {
        self.1
    }

    pub fn column(&self) -> (c: usize)
        ensures
            c == self.0,
    {
        self.0
    }

    /// The area of the rectangle between the two tiles, unless it is too
    /// large for an `i64`.
    pub fn checked_area_between(&self, other: Point) -> (r: Option<i64>)
        ensures
            r == if area(*self, other) <= i64::MAX {
                Some(area(*self, other) as i64)
            } else {
                None
            },
            area(*self, other) >= 1,
    {
        let width: u128 = distance(self.row(), other.row()) as u128 + 1;
        let height: u128 = distance(self.column(), other.column()) as u128 + 1;
        let limit: u128 = i64::MAX as u128;
        assert(width == span(self.1, other.1) + 1);
        assert(height == span(self.0, other.0) + 1);
        assert(area(*self, other) >= 1) by (nonlinear_arith)
            requires
                area(*self, other) == width * height,
                width >= 1,
                height >= 1,
        ;
        if width > limit || height > limit {
            assert(width * height > limit) by (nonlinear_arith)
                requires
                    width >= 1,
                    height >= 1,
                    width > limit || height > limit,
            ;
            return None;
        }
        assert(width * height <= limit * limit) by (nonlinear_arith)
            requires
                width <= limit,
                height <= limit,
        ;
        let product: u128 = width * height;
        if product > limit {
            None
        } else {
            Some(product as i64)
        }
    }

    /// The area of the rectangle between the two tiles.
    pub fn area_between(&self, other: Point) -> (r: i64)
        requires
            area(*self, other) <= i64::MAX,
        ensures
            r == area(*self, other),
    {
        match self.checked_area_between(other) {
            Some(area) => area,
            None => 0,
        }
    }

    /// The tile that a line describes: its column and its row with a comma
    /// between them; what follows a second comma is not looked at.
    pub open spec fn parse(line: Seq<char>) -> Result<Point, Error> {
        let fields = split(line, ',');
        match parse_usize_spec(fields[0]) {
            Err(kind) => Err(Error::InvalidIntError(kind)),
            Ok(column) => if fields.len() < 2 {
                Err(Error::InvalidInput)
            } else {
                match parse_usize_spec(fields[1]) {
                    Err(kind) => Err(Error::InvalidIntError(kind)),
                    Ok(row) => Ok(Point(column as usize, row as usize)),
                }
            },
        }
    }

    /// Reads one line of the input.
    pub fn try_from(value: String) -> (r: Result<Point, Error>)
        ensures
            r == Self::parse(value@),
    {
        let text = chars_of(value.as_str());
        let point = split_at_char(&text, ',');
        assert(crate::text::views(point@)[0] == point@[0]@);
        let column = match parse_usize(&point[0]) {
            Ok(v) => v,
            Err(kind) => {
                return Err(Error::InvalidIntError(kind));
            },
        };
        if point.len() < 2 {
            return Err(Error::InvalidInput);
        }
        assert(crate::text::views(point@)[1] == point@[1]@);
        let row = match parse_usize(&point[1]) {
            Ok(v) => v,
            Err(kind) => {
                return Err(Error::InvalidIntError(kind));
            },
        };
        Ok(Self(column, row))
    }
}

/// The input of the day: the red tiles.
#[derive(Debug, PartialEq)]
pub struct Day09Input {
    pub points: Vec<Point>,
}

impl Day09Input {
    /// The tiles that the lines describe, or the error of the first line that
    /// describes none.
    pub open spec fn parse(lines: Seq<Seq<char>>) -> Result<Seq<Point>, Error> {
        collect_all(lines, |line: Seq<char>| Point::parse(line))
    }

    /// The largest area that two of the tiles span, unless there is no tile
    /// or an area is too large for an `i64`.
    pub fn checked_largest_rectangle(&self) -> (r: Result<i64, Error>)
        ensures
            match r {
                Ok(area) => self.points@.len() >= 1 && areas_fit(self.points@) && is_largest_area(
                    self.points@,
                    area as int,
                ),
                Err(e) => if self.points@.len() == 0 {
                    e == Error::InvalidInput
                } else {
                    e == Error::Overflow && !areas_fit(self.points@)
                },
            },
    {
        let n: usize = self.points.len();
        if n == 0 {
            return Err(Error::InvalidInput);
        }
        let mut max_area: i64 = 0;
        let ghost mut best_i: int = 0;
        let ghost mut best_j: int = 0;
        let mut i: usize = 0;
        while i < n - 1
            invariant
                n == self.points@.len(),
                n >= 1,
                i <= n - 1,
                0 <= max_area,
                forall|a: int, b: int|
                    0 <= a < i && a < b < n ==> #[trigger] area(self.points@[a], self.points@[b])
                        <= max_area,
                max_area > 0 ==> 0 <= best_i < best_j < n && area(
                    self.points@[best_i],
                    self.points@[best_j],
                ) == max_area,
                max_area == 0 ==> i == 0,
            decreases n - i,
        {
            let mut j: usize = i + 1;
            while j < n
                invariant
                    n == self.points@.len(),
                    i < n - 1,
                    i < j <= n,
                    0 <= max_area,
                    forall|a: int, b: int|
                        0 <= a < i && a < b < n ==> #[trigger] area(
                            self.points@[a],
                            self.points@[b],
                        ) <= max_area,
                    forall|b: int|
                        i < b < j ==> #[trigger] area(self.points@[i as int], self.points@[b])
                            <= max_area,
                    max_area > 0 ==> 0 <= best_i < best_j < n && area(
                        self.points@[best_i],
                        self.points@[best_j],
                    ) == max_area,
                    max_area == 0 ==> i == 0 && j == 1,
                decreases n - j,
            {
                let area = match self.points[i].checked_area_between(self.points[j]) {
                    Some(area) => area,
                    None => {
                        assert(!(area(self.points@[i as int], self.points@[j as int]) <= i64::MAX));
                        return Err(Error::Overflow);
                    },
                };
                if area > max_area {
                    max_area = area;
                    proof {
                        best_i = i as int;
                        best_j = j as int;
                    }
                }
                j += 1;
            }
            i += 1;
        }
        assert(areas_fit(self.points@)) by {
            assert forall|a: int, b: int| 0 <= a < b < n implies #[trigger] area(
                self.points@[a],
                self.points@[b],
            ) <= i64::MAX by {
                assert(area(self.points@[a], self.points@[b]) <= max_area);
            }
        }
        Ok(max_area)
    }

    /// The largest area that two of the tiles span.
    pub fn largest_rectangle(&self) -> (r: i64)
        requires
            self.points@.len() >= 1,
            areas_fit(self.points@),
        ensures
            is_largest_area(self.points@, r as int),
    {
        match self.checked_largest_rectangle() {
            Ok(area) => area,
            Err(_) => 0,
        }
    }

    /// Reads every line of the input.
    pub fn try_from_lines(lines: &Vec<String>) -> (r: Result<Day09Input, Error>)
        ensures
            match r {
                Ok(input) => Self::parse(line_views(lines@)) == Ok::<Seq<Point>, Error>(
                    input.points@,
                ),
                Err(e) => Self::parse(line_views(lines@)) == Err::<Seq<Point>, Error>(e),
            },
    {
        let ghost texts = line_views(lines@);
        let ghost parse = |line: Seq<char>| Point::parse(line);
        let mut points: Vec<Point> = Vec::new();
        let mut i: usize = 0;
        while i < lines.len()
            invariant
                i <= lines.len(),
                texts == line_views(lines@),
                parse == |line: Seq<char>| Point::parse(line),
                collect_all(texts.take(i as int), parse) == Ok::<Seq<Point>, Error>(points@),
            decreases lines.len() - i,
        {
            proof {
                crate::text::lemma_collect_all_step(texts, parse, i as int);
            }
            match Point::try_from(lines[i].clone()) {
                Ok(point) => {
                    points.push(point);
                },
                Err(e) => {
                    proof {
                        crate::text::lemma_collect_all_error(texts, parse, i + 1);
                    }
                    return Err(e);
                },
            }
            i += 1;
        }
        assert(texts.take(i as int) == texts);
        Ok(Self { points })
    }
}

/// The input of this day.
pub const DAY_09_FILE: &'static str = "./resources/aoc_25/day_09.txt";

/// The day: the file that holds its input, and the answer of its one part.
pub struct Day09Processor(pub String);

impl Day09Processor {
    pub fn new() -> (r: Self)
        ensures
            r.0@ == DAY_09_FILE@,
    {
        Self(DAY_09_FILE.to_owned())
    }

    /// `r` is the answer of part one for the lines: the largest area that two
    /// of the tiles span. Lines that describe no tile give their error, no
    /// tile at all is invalid input, and an area that an `i64` cannot hold is
    /// an overflow.
    pub open spec fn is_answer(lines: Seq<Seq<char>>, r: Result<i64, Error>) -> bool {
        match Day09Input::parse(lines) {
            Err(e) => r == Err::<i64, Error>(e),
            Ok(points) => if points.len() == 0 {
                r == Err::<i64, Error>(Error::InvalidInput)
            } else if !areas_fit(points) {
                r == Err::<i64, Error>(Error::Overflow)
            } else {
                r matches Ok(area) && is_largest_area(points, area as int)
            },
        }
    }

    /// Works out the day for the lines of the input.
    pub fn process(&self, lines: &Vec<String>) -> (r: Result<i64, Error>)
        ensures
            Self::is_answer(line_views(lines@), r),
    {
        self.process_part1(lines)
    }

    /// The answer of part one for the lines of the input.
    pub fn process_part1(&self, lines: &Vec<String>) -> (r: Result<i64, Error>)
        ensures
            Self::is_answer(line_views(lines@), r),
    {
        match Day09Input::try_from_lines(lines) {
            Ok(input) => input.checked_largest_rectangle(),
            Err(e) => Err(e),
        }
    }
}

impl Default for Day09Processor {
    fn default() -> (r: Self)
        ensures
            r.0@ == DAY_09_FILE@,
    {
        Self::new()
    }
}

/// There is one largest area.
pub proof fn lemma_largest_area_unique(points: Seq<Point>, r: int, s: int)
    requires
        is_largest_area(points, r),
        is_largest_area(points, s),
    ensures
        r == s,
{
}

/// The lines have one answer.
pub proof fn lemma_answer_unique(lines: Seq<Seq<char>>, r: Result<i64, Error>, s: Result<i64, Error>)
    requires
        Day09Processor::is_answer(lines, r),
        Day09Processor::is_answer(lines, s),
    ensures
        r == s,
{
    match Day09Input::parse(lines) {
        Ok(points) => {
            if points.len() > 0 && areas_fit(points) {
                lemma_largest_area_unique(points, r->Ok_0 as int, s->Ok_0 as int);
            }
        },
        Err(_) => {},
    }
}


} // verus!
