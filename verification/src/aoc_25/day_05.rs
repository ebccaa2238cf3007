//! Ranges of ingredient ids that are fresh, and the ids of the ingredients at
//! hand: how many of these are fresh.

use crate::aoc_25::Error;
use crate::pattern::{accepts, captures, captures_view, is_match, regex_accepts, regex_captures};
use crate::text::{chars_of, line_views, parse_i64, parse_i64_spec};
use std::ops::RangeInclusive;
use vstd::prelude::*;
use vstd::std_specs::range::RangeInclusiveView;

verus! {

/// The shape of a line that gives a range: two numbers with a hyphen between
/// them.
pub const FRESH_ID_RANGE_RE: &'static str = "^(?<start>\\d+)-(?<end>\\d+)$";

/// The shape of a line that gives an ingredient: one number.
pub const INGREDIENT_ID_RE: &'static str = "^(?<id>\\d+)$";

/// The ends of each range.
pub open spec fn range_views(ranges: Seq<RangeInclusive<i64>>) -> Seq<RangeInclusiveView<i64>> {
    Seq::new(ranges.len(), |i: int| ranges[i]@)
}

/// The range holds `id`.
pub open spec fn covers(range: RangeInclusiveView<i64>, id: i64) -> bool {
    range.start <= id && if range.exhausted {
        id < range.end
    } else {
        id <= range.end
    }
}

/// One of the ranges holds `id`.
pub open spec fn is_fresh(ranges: Seq<RangeInclusiveView<i64>>, id: i64) -> bool {
    exists|i: int| 0 <= i < ranges.len() && covers(#[trigger] ranges[i], id)
}

/// The ends of the range that the capture groups of a line describe, where
/// both are numbers. Group 1 holds the first id and group 2 the last.
pub open spec fn range_of_groups(found: Option<Seq<Option<Seq<char>>>>) -> Option<(i64, i64)> {
    match found {
        None => None,
        Some(groups) => if groups.len() < 3 || groups[1] is None || groups[2] is None {
            None
        } else {
            match (parse_i64_spec(groups[1]->0), parse_i64_spec(groups[2]->0)) {
                (Ok(start), Ok(end)) => Some((start as i64, end as i64)),
                _ => None,
            }
        },
    }
}

/// The ranges with the one that a line describes added, if it describes one.
pub open spec fn with_range(
    ranges: Seq<RangeInclusiveView<i64>>,
    found: Option<Seq<Option<Seq<char>>>>,
) -> Seq<RangeInclusiveView<i64>> {
    match range_of_groups(found) {
        Some((start, end)) => ranges.push(RangeInclusiveView { start, end, exhausted: false }),
        None => ranges,
    }
}

/// The ranges of ids that are fresh.
#[derive(Debug, PartialEq)]
pub struct FreshIdRanges(pub Vec<RangeInclusive<i64>>);

impl FreshIdRanges {
    pub fn new() -> (r: Self)
        ensures
            r.0@.len() == 0,
    {
        let empty_ranges: Vec<RangeInclusive<i64>> = Vec::new();
        Self(empty_ranges)
    }

    pub fn ranges(&self) -> (r: &Vec<RangeInclusive<i64>>)
        ensures
            r@ == self.0@,
    {
        &self.0
    }

    /// Whether the line gives a range.
    pub fn is_fresh_id_range(possible_range: String) -> (r: bool)
        requires
            regex_accepts(FRESH_ID_RANGE_RE@),
        ensures
            r == (regex_captures(FRESH_ID_RANGE_RE@, possible_range@) is Some),
    {
        match is_match(FRESH_ID_RANGE_RE, possible_range.as_str()) {
            Ok(found) => found,
            Err(_) => false,
        }
    }

    /// Adds the range that what was found in a line describes, if it
    /// describes one.
    pub fn add_found(&mut self, found: Option<Vec<Option<String>>>)
        ensures
            range_views(final(self).0@) == with_range(range_views(old(self).0@), captures_view(found)),
    {
        let groups = match found {
            Some(groups) => groups,
            None => {
                return ;
            },
        };
        if groups.len() < 3 {
            return ;
        }
        let start_text = match &groups[1] {
            Some(s) => chars_of(s.as_str()),
            None => {
                return ;
            },
        };
        let end_text = match &groups[2] {
            Some(s) => chars_of(s.as_str()),
            None => {
                return ;
            },
        };
        let start = match parse_i64(&start_text) {
            Ok(v) => v,
            Err(_) => {
                return ;
            },
        };
        let end = match parse_i64(&end_text) {
            Ok(v) => v,
            Err(_) => {
                return ;
            },
        };
        let range = RangeInclusive::new(start, end);
        self.0.push(range);
        assert(range_views(final(self).0@) == range_views(old(self).0@).push(range@));
    }

    /// Adds the range that the line gives, if it gives one.
    pub fn add_range(&mut self, range: String)
        requires
            regex_accepts(FRESH_ID_RANGE_RE@),
        ensures
            range_views(final(self).0@) == with_range(
                range_views(old(self).0@),
                regex_captures(FRESH_ID_RANGE_RE@, range@),
            ),
    {
        match captures(FRESH_ID_RANGE_RE, range.as_str()) {
            Ok(found) => self.add_found(found),
            Err(_) => {},
        }
    }

    /// Whether one of the ranges holds the id.
    pub fn is_fresh_ingredient(&self, ingredient_id: i64) -> (r: bool)
        ensures
            r == is_fresh(range_views(self.0@), ingredient_id),
    {
        let ghost all = range_views(self.0@);
        let mut i: usize = 0;
        while i < self.0.len()
            invariant
                i <= self.0.len(),
                all == range_views(self.0@),
                forall|k: int| 0 <= k < i ==> !covers(#[trigger] all[k], ingredient_id),
            decreases self.0.len() - i,
        {
            let range = &self.0[i];
            assert(range@ == all[i as int]);
            if range.contains(&ingredient_id) {
                assert(covers(all[i as int], ingredient_id));
                return true;
            }
            assert(!covers(all[i as int], ingredient_id));
            i += 1;
        }
        false
    }
}

/// The ids of the ingredients at hand.
#[derive(Debug, PartialEq)]
pub struct IngredientIDs(pub Vec<i64>);

impl IngredientIDs {
    pub fn new() -> (r: Self)
        ensures
            r.0@ == Seq::<i64>::empty(),
    {
        Self(Vec::new())
    }

    /// Adds the id that the text denotes, if it denotes one.
    pub fn add_ingredient(&mut self, ingredient_id: String)
        ensures
            final(self).0@ == match parse_i64_spec(ingredient_id@) {
                Ok(id) => old(self).0@.push(id as i64),
                Err(_) => old(self).0@,
            },
    {
        let text = chars_of(ingredient_id.as_str());
        if let Ok(id) = parse_i64(&text) {
            self.0.push(id);
        }
    }

    /// Whether the line gives an ingredient.
    pub fn is_ingredient_id(possible_ingredient_id: String) -> (r: bool)
        requires
            regex_accepts(INGREDIENT_ID_RE@),
        ensures
            r == (regex_captures(INGREDIENT_ID_RE@, possible_ingredient_id@) is Some),
    {
        match is_match(INGREDIENT_ID_RE, possible_ingredient_id.as_str()) {
            Ok(found) => found,
            Err(_) => false,
        }
    }
}

/// The ranges known and the fresh ingredients counted after the first `k`
/// lines. A line that gives a range adds it; any other line that gives an
/// ingredient counts if a range known by then holds its id.
pub open spec fn pantry_after(lines: Seq<Seq<char>>, k: nat) -> (Seq<RangeInclusiveView<i64>>, nat)
    decreases k,
{
    if k == 0 {
        (Seq::empty(), 0nat)
    } else {
        let (ranges, fresh) = pantry_after(lines, (k - 1) as nat);
        let line = lines[k - 1];
        if regex_captures(FRESH_ID_RANGE_RE@, line) is Some {
            (with_range(ranges, regex_captures(FRESH_ID_RANGE_RE@, line)), fresh)
        } else if regex_captures(INGREDIENT_ID_RE@, line) is Some {
            match parse_i64_spec(line) {
                Ok(id) => if is_fresh(ranges, id as i64) {
                    (ranges, fresh + 1)
                } else {
                    (ranges, fresh)
                },
                Err(_) => (ranges, fresh),
            }
        } else {
            (ranges, fresh)
        }
    }
}

/// No more ingredients are counted than lines were read.
pub proof fn lemma_pantry_count(lines: Seq<Seq<char>>, k: nat)
    ensures
        pantry_after(lines, k).1 <= k,
    decreases k,
{
    if k > 0 {
        lemma_pantry_count(lines, (k - 1) as nat);
    }
}

/// The answer of part one.
#[derive(Clone, Copy, Debug, PartialEq, Eq, Structural)]
pub struct PartOneValue(pub i64);

impl PartOneValue {
    pub fn get(&self) -> (v: i64)
        ensures
            v == self.0,
    {
        self.0
    }

    /// The number of fresh ingredients that the lines list.
    pub open spec fn of_lines(lines: Seq<Seq<char>>) -> Result<PartOneValue, Error> {
        if !regex_accepts(FRESH_ID_RANGE_RE@) || !regex_accepts(INGREDIENT_ID_RE@) {
            Err(Error::InvalidRegex)
        } else if pantry_after(lines, lines.len()).1 > i64::MAX {
            Err(Error::Overflow)
        } else {
            Ok(PartOneValue(pantry_after(lines, lines.len()).1 as i64))
        }
    }

    /// Reads the lines and counts the fresh ingredients.
    pub fn try_from_lines(input_lines: &Vec<String>) -> (r: Result<PartOneValue, Error>)
        ensures
            r == Self::of_lines(line_views(input_lines@)),
    {
        if !accepts(FRESH_ID_RANGE_RE) || !accepts(INGREDIENT_ID_RE) {
            return Err(Error::InvalidRegex);
        }
        let ghost lines = line_views(input_lines@);
        let mut fresh_ranges = FreshIdRanges::new();
        let mut fresh_ingredients: usize = 0;
        let mut i: usize = 0;
        assert(range_views(fresh_ranges.0@) == Seq::<RangeInclusiveView<i64>>::empty());
        while i < input_lines.len()
            invariant
                i <= input_lines.len(),
                lines == line_views(input_lines@),
                regex_accepts(FRESH_ID_RANGE_RE@),
                regex_accepts(INGREDIENT_ID_RE@),
                fresh_ingredients <= i,
                pantry_after(lines, i as nat) == (
                    range_views(fresh_ranges.0@),
                    fresh_ingredients as nat,
                ),
            decreases input_lines.len() - i,
        {
            let input: &String = &input_lines[i];
            assert(input@ == lines[i as int]);
            if FreshIdRanges::is_fresh_id_range(input.clone()) {
                fresh_ranges.add_range(input.clone());
            } else if IngredientIDs::is_ingredient_id(input.clone()) {
                let text = chars_of(input.as_str());
                if let Ok(ingredient) = parse_i64(&text) {
                    if fresh_ranges.is_fresh_ingredient(ingredient) {
                        fresh_ingredients += 1;
                    }
                }
            }
            i += 1;
        }
        if fresh_ingredients as u128 > i64::MAX as u128 {
            return Err(Error::Overflow);
        }
        Ok(PartOneValue(fresh_ingredients as i64))
    }
}

/// The input of this day.
pub const DAY_05_FILE: &'static str = "./resources/aoc_25/day_05.txt";

/// The day: the file that holds its input, and the answer of its one part.
pub struct Day05Processor(pub String);

impl Day05Processor {
    pub fn new() -> (r: Self)
        ensures
            r.0@ == DAY_05_FILE@,
    {
        Self(DAY_05_FILE.to_owned())
    }

    /// The answer of part one: the number of fresh ingredients.
    pub open spec fn answer(lines: Seq<Seq<char>>) -> Result<i64, Error> {
        match PartOneValue::of_lines(lines) {
            Ok(v) => Ok(v.0),
            Err(e) => Err(e),
        }
    }

    /// Works out the day for the lines of the input.
    pub fn process(&self, lines: &Vec<String>) -> (r: Result<i64, Error>)
        ensures
            r == Self::answer(line_views(lines@)),
    {
        self.process_part1(lines)
    }

    /// The answer of part one for the lines of the input.
    pub fn process_part1(&self, lines: &Vec<String>) -> (r: Result<i64, Error>)
        ensures
            r == Self::answer(line_views(lines@)),
    {
        match PartOneValue::try_from_lines(lines) {
            Ok(p1_value) => Ok(p1_value.get()),
            Err(e) => Err(e),
        }
    }
}

impl Default for Day05Processor {
    fn default() -> (r: Self)
        ensures
            r.0@ == DAY_05_FILE@,
    {
        Self::new()
    }
}

} // verus!
