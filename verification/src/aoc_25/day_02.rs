//! Ranges of product ids: an id is invalid where its decimal text is some text
//! written twice.

use crate::aoc_25::Error;
use crate::pattern::{captures, captures_view, regex_accepts, regex_captures};
use crate::text::{
    chars_of, collect_all, decimal, decimal_chars, is_digit, lemma_digits_of, line_views,
    parse_i64, parse_i64_spec, split, split_at_char, views,
};
use vstd::prelude::*;

verus! {

/// The shape of a range: two numbers with a hyphen between them.
pub const PRODUCT_RANGE_RE: &'static str = "^(?<start>\\d+)-(?<end>\\d+)$";

/// The text is some text written twice.
pub open spec fn repeats_twice(s: Seq<char>) -> bool {
    s.len() % 2 == 0 && s.take((s.len() / 2) as int) == s.skip((s.len() / 2) as int)
}

/// The id is invalid: its decimal text is some text written twice.
pub open spec fn invalid_id(n: int) -> bool {
    repeats_twice(decimal(n))
}

/// No negative id is invalid: its text starts with a sign, and its second
/// half with a digit.
pub proof fn lemma_invalid_id_not_negative(n: int)
    requires
        invalid_id(n),
    ensures
        n >= 0,
{
    if n < 0 {
        let s = decimal(n);
        let half: int = (s.len() / 2) as int;
        lemma_digits_of((-n) as nat);
        assert(s.take(half)[0] == s[0]);
        assert(s.skip(half)[0] == s[half]);
        assert(s[0] == '-');
        assert(s[half] == crate::text::digits_of((-n) as nat)[half - 1]);
        assert(is_digit(s[half]));
    }
}

/// The invalid ids from `start` to `end`, both included, in ascending order.
pub open spec fn invalid_in(start: int, end: int) -> Seq<i64>
    decreases end - start + 1,
{
    if start > end {
        Seq::empty()
    } else if invalid_id(end) {
        invalid_in(start, end - 1).push(end as i64)
    } else {
        invalid_in(start, end - 1)
    }
}

/// The invalid ids of a range are not negative.
pub proof fn lemma_invalid_in_not_negative(start: int, end: int)
    requires
        i64::MIN <= start,
        end <= i64::MAX,
    ensures
        forall|i: int| 0 <= i < invalid_in(start, end).len() ==> #[trigger] invalid_in(start, end)[i] >= 0,
    decreases end - start + 1,
{
    if start <= end {
        lemma_invalid_in_not_negative(start, end - 1);
        if invalid_id(end) {
            lemma_invalid_id_not_negative(end);
        }
        let rest = invalid_in(start, end - 1);
        assert forall|i: int| 0 <= i < invalid_in(start, end).len() implies #[trigger] invalid_in(
            start,
            end,
        )[i] >= 0 by {
            if i < rest.len() {
                assert(invalid_in(start, end)[i] == rest[i]);
            }
        }
    }
}

/// A range of product ids, both ends included.
#[derive(Clone, Copy, Debug, PartialEq, Eq, Structural)]
pub struct ProductRange {
    pub start_id: i64,
    pub end_id: i64,
}

impl ProductRange {
    /// The range that the capture groups of a field describe. Group 1 holds
    /// the first id and group 2 the last.
    pub open spec fn of_groups(found: Option<Seq<Option<Seq<char>>>>) -> Result<
        ProductRange,
        Error,
    > {
        match found {
            None => Err(Error::InvalidInput),
            Some(groups) => if groups.len() < 3 || groups[1] is None || groups[2] is None {
                Err(Error::InvalidInput)
            } else {
                match parse_i64_spec(groups[1]->0) {
                    Err(kind) => Err(Error::InvalidIntError(kind)),
                    Ok(start) => match parse_i64_spec(groups[2]->0) {
                        Err(kind) => Err(Error::InvalidIntError(kind)),
                        Ok(end) => Ok(ProductRange { start_id: start as i64, end_id: end as i64 }),
                    },
                }
            },
        }
    }

    /// The range that a field describes.
    pub open spec fn parse(field: Seq<char>) -> Result<ProductRange, Error> {
        if !regex_accepts(PRODUCT_RANGE_RE@) {
            Err(Error::InvalidRegex)
        } else {
            Self::of_groups(regex_captures(PRODUCT_RANGE_RE@, field))
        }
    }

    /// Builds the range from what the search for the field's shape found.
    pub fn from_captures(found: Option<Vec<Option<String>>>) -> (r: Result<ProductRange, Error>)
        ensures
            r == Self::of_groups(captures_view(found)),
    {
        let groups = match found {
            Some(groups) => groups,
            None => {
                return Err(Error::InvalidInput);
            },
        };
        if groups.len() < 3 {
            return Err(Error::InvalidInput);
        }
        let start_text = match &groups[1] {
            Some(s) => chars_of(s.as_str()),
            None => {
                return Err(Error::InvalidInput);
            },
        };
        let end_text = match &groups[2] {
            Some(s) => chars_of(s.as_str()),
            None => {
                return Err(Error::InvalidInput);
            },
        };
        let start_id = match parse_i64(&start_text) {
            Ok(v) => v,
            Err(kind) => {
                return Err(Error::InvalidIntError(kind));
            },
        };
        let end_id = match parse_i64(&end_text) {
            Ok(v) => v,
            Err(kind) => {
                return Err(Error::InvalidIntError(kind));
            },
        };
        Ok(ProductRange { start_id, end_id })
    }

    /// Reads one field of the input.
    pub fn try_from(value: String) -> (r: Result<ProductRange, Error>)
        ensures
            r == Self::parse(value@),
    {
        match captures(PRODUCT_RANGE_RE, value.as_str()) {
            Ok(found) => Self::from_captures(found),
            Err(_) => Err(Error::InvalidRegex),
        }
    }

    /// Whether the id is invalid.
    pub fn invalid_product_id(prod_id: i64) -> (r: bool)
        ensures
            r == invalid_id(prod_id as int),
    {
        let prod_id_str: Vec<char> = decimal_chars(prod_id);
        let length: usize = prod_id_str.len();
        // a text of odd length is no text written twice
        if length % 2 > 0 {
            return false;
        }
        let midpoint: usize = length / 2;
        let ghost s = prod_id_str@;
        let mut k: usize = 0;
        while k < midpoint
            invariant
                k <= midpoint,
                midpoint == length / 2,
                length == prod_id_str@.len(),
                length % 2 == 0,
                s == prod_id_str@,
                s == decimal(prod_id as int),
                forall|j: int| 0 <= j < k ==> #[trigger] s[j] == s[midpoint + j],
            decreases midpoint - k,
        {
            if prod_id_str[k] != prod_id_str[midpoint + k] {
                assert(s.take(midpoint as int)[k as int] != s.skip(midpoint as int)[k as int]);
                return false;
            }
            k += 1;
        }
        assert(s.take(midpoint as int) =~= s.skip(midpoint as int));
        true
    }

    /// The invalid ids of the range, in ascending order.
    pub fn invalid_ids(&self) -> (invalids: Vec<i64>)
        requires
            self.end_id < i64::MAX,
        ensures
            invalids@ == invalid_in(self.start_id as int, self.end_id as int),
    {
        let mut invalids: Vec<i64> = Vec::new();
        let mut prod_id: i64 = self.start_id;
        while prod_id < self.end_id + 1
            invariant
                self.end_id < i64::MAX,
                self.start_id <= prod_id,
                prod_id <= self.end_id + 1 || self.start_id > self.end_id,
                self.start_id > self.end_id ==> prod_id == self.start_id,
                invalids@ == invalid_in(self.start_id as int, prod_id - 1),
            decreases self.end_id + 1 - prod_id,
        {
            if ProductRange::invalid_product_id(prod_id) {
                invalids.push(prod_id)
            }
            prod_id += 1;
        }
        proof {
            if self.start_id > self.end_id {
                assert(invalid_in(self.start_id as int, self.end_id as int) == Seq::<i64>::empty());
                assert(invalid_in(self.start_id as int, self.start_id - 1) == Seq::<i64>::empty());
            }
        }
        invalids
    }
}

/// The sum of the ids.
pub open spec fn sum_of(ids: Seq<i64>) -> int
    decreases ids.len(),
{
    if ids.len() == 0 {
        0
    } else {
        sum_of(ids.drop_last()) + ids.last()
    }
}

/// The sum of the invalid ids of all the ranges.
pub open spec fn total_invalid(ranges: Seq<ProductRange>) -> int
    decreases ranges.len(),
{
    if ranges.len() == 0 {
        0
    } else {
        total_invalid(ranges.drop_last()) + sum_of(
            invalid_in(ranges.last().start_id as int, ranges.last().end_id as int),
        )
    }
}

/// No range ends at the largest id there is, behind which none can be
/// counted.
pub open spec fn ranges_end_early(ranges: Seq<ProductRange>) -> bool {
    forall|i: int| 0 <= i < ranges.len() ==> (#[trigger] ranges[i]).end_id < i64::MAX
}

/// Of ids that are not negative, a part sums to no more than the whole.
pub proof fn lemma_sum_of_prefix(ids: Seq<i64>, k: int)
    requires
        0 <= k <= ids.len(),
        forall|i: int| 0 <= i < ids.len() ==> #[trigger] ids[i] >= 0,
    ensures
        0 <= sum_of(ids.take(k)) <= sum_of(ids),
    decreases ids.len(),
{
    if k == ids.len() {
        assert(ids.take(k) == ids);
        if ids.len() > 0 {
            lemma_sum_of_prefix(ids.drop_last(), k - 1);
            assert(ids.drop_last().take(k - 1) == ids.drop_last());
        }
    } else {
        lemma_sum_of_prefix(ids.drop_last(), k);
        assert(ids.drop_last().take(k) == ids.take(k));
    }
}

/// The first ranges hold no more than all of them.
pub proof fn lemma_total_invalid_prefix(ranges: Seq<ProductRange>, k: int)
    requires
        0 <= k <= ranges.len(),
    ensures
        0 <= total_invalid(ranges.take(k)) <= total_invalid(ranges),
    decreases ranges.len(),
{
    if ranges.len() > 0 {
        let last = ranges.last();
        let ids = invalid_in(last.start_id as int, last.end_id as int);
        lemma_invalid_in_not_negative(last.start_id as int, last.end_id as int);
        lemma_sum_of_prefix(ids, ids.len() as int);
        if k == ranges.len() {
            assert(ranges.take(k) == ranges);
            lemma_total_invalid_prefix(ranges.drop_last(), k - 1);
            assert(ranges.drop_last().take(k - 1) == ranges.drop_last());
        } else {
            lemma_total_invalid_prefix(ranges.drop_last(), k);
            assert(ranges.drop_last().take(k) == ranges.take(k));
        }
    } else {
        assert(ranges.take(k) == ranges);
    }
}

/// The ranges that the fields describe, or the error of the first field that
/// describes none.
pub open spec fn parse_ranges(fields: Seq<Seq<char>>) -> Result<Seq<ProductRange>, Error> {
    collect_all(fields, |field: Seq<char>| ProductRange::parse(field))
}

/// The answer of part one.
#[derive(Clone, Copy, Debug, PartialEq, Eq, Structural)]
pub struct PartOneValue(pub i64);

impl PartOneValue {
    pub fn get(&self) -> (v: i64)
        ensures
            v == self.0,
    {
        self.0
    }

    /// The sum of the invalid ids of the ranges.
    pub open spec fn of_ranges(ranges: Seq<ProductRange>) -> Result<PartOneValue, Error> {
        if ranges_end_early(ranges) && total_invalid(ranges) <= i64::MAX {
            Ok(PartOneValue(total_invalid(ranges) as i64))
        } else {
            Err(Error::Overflow)
        }
    }

    /// The sum of the invalid ids of the ranges that the first line lists,
    /// with commas between them. Without a first line the sum is 0.
    pub open spec fn of_lines(lines: Seq<Seq<char>>) -> Result<PartOneValue, Error> {
        if lines.len() == 0 {
            Ok(PartOneValue(0))
        } else {
            match parse_ranges(split(lines[0], ',')) {
                Err(e) => Err(e),
                Ok(ranges) => Self::of_ranges(ranges),
            }
        }
    }

    /// Adds up the invalid ids of the ranges.
    pub fn from_ranges(product_ranges: &Vec<ProductRange>) -> (r: Result<PartOneValue, Error>)
        ensures
            r == Self::of_ranges(product_ranges@),
    {
        let ghost ranges = product_ranges@;
        let mut total: i64 = 0;
        let mut k: usize = 0;
        while k < product_ranges.len()
            invariant
                k <= product_ranges.len(),
                ranges == product_ranges@,
                total == total_invalid(ranges.take(k as int)),
                forall|i: int| 0 <= i < k ==> (#[trigger] ranges[i]).end_id < i64::MAX,
            decreases product_ranges.len() - k,
        {
            let range = &product_ranges[k];
            if range.end_id == i64::MAX {
                assert(!(ranges[k as int].end_id < i64::MAX));
                return Err(Error::Overflow);
            }
            let ids = range.invalid_ids();
            proof {
                assert(ranges.take(k + 1).drop_last() == ranges.take(k as int));
                lemma_invalid_in_not_negative(range.start_id as int, range.end_id as int);
                lemma_total_invalid_prefix(ranges, k as int);
                lemma_total_invalid_prefix(ranges, k + 1);
            }
            let ghost before = total as int;
            let mut j: usize = 0;
            while j < ids.len()
                invariant
                    j <= ids.len(),
                    total == before + sum_of(ids@.take(j as int)),
                    0 <= before,
                    forall|i: int| 0 <= i < ids@.len() ==> #[trigger] ids@[i] >= 0,
                    before + sum_of(ids@) <= total_invalid(ranges),
                    ranges == product_ranges@,
                decreases ids.len() - j,
            {
                proof {
                    assert(ids@.take(j + 1).drop_last() == ids@.take(j as int));
                    lemma_sum_of_prefix(ids@, j + 1);
                    lemma_sum_of_prefix(ids@, j as int);
                }
                total = match total.checked_add(ids[j]) {
                    Some(t) => t,
                    None => {
                        return Err(Error::Overflow);
                    },
                };
                j += 1;
            }
            assert(ids@.take(j as int) == ids@);
            k += 1;
        }
        assert(ranges.take(k as int) == ranges);
        Ok(PartOneValue(total))
    }

    /// Reads the first line and adds up the invalid ids of its ranges.
    pub fn try_from_lines(lines: &Vec<String>) -> (r: Result<PartOneValue, Error>)
        ensures
            r == Self::of_lines(line_views(lines@)),
    {
        if lines.len() == 0 {
            return Ok(PartOneValue(0));
        }
        let first_line = chars_of(lines[0].as_str());
        let fields = split_at_char(&first_line, ',');
        let ghost texts = views(fields@);
        let ghost parse = |field: Seq<char>| ProductRange::parse(field);
        let mut product_ranges: Vec<ProductRange> = Vec::new();
        let mut i: usize = 0;
        while i < fields.len()
            invariant
                i <= fields.len(),
                texts == views(fields@),
                texts == split(line_views(lines@)[0], ','),
                lines@.len() > 0,
                parse == |field: Seq<char>| ProductRange::parse(field),
                collect_all(texts.take(i as int), parse) == Ok::<Seq<ProductRange>, Error>(
                    product_ranges@,
                ),
            decreases fields.len() - i,
        {
            proof {
                crate::text::lemma_collect_all_step(texts, parse, i as int);
            }
            let field: String = crate::text::string_of(&fields[i]);
            match ProductRange::try_from(field) {
                Ok(range) => {
                    product_ranges.push(range);
                },
                Err(e) => {
                    proof {
                        crate::text::lemma_collect_all_error(texts, parse, i + 1);
                    }
                    return Err(e);
                },
            }
            i += 1;
        }
        assert(texts.take(i as int) == texts);
        Self::from_ranges(&product_ranges)
    }
}

/// The input of this day.
pub const DAY_02_FILE: &'static str = "./resources/aoc_25/day_02.txt";

/// Part one of the day, for one input file.
pub struct PartOneProcessor(pub String);

impl PartOneProcessor {
    pub fn new(s: &str) -> (r: Self)
        ensures
            r.0@ == s@,
    {
        Self(s.to_owned())
    }

    /// The answer of part one: the sum of the invalid ids.
    pub open spec fn answer(lines: Seq<Seq<char>>) -> Result<i64, Error> {
        match PartOneValue::of_lines(lines) {
            Ok(v) => Ok(v.0),
            Err(e) => Err(e),
        }
    }

    /// The answer of part one for the lines of the input.
    pub fn process(&self, lines: &Vec<String>) -> (r: Result<i64, Error>)
        ensures
            r == Self::answer(line_views(lines@)),
    {
        match PartOneValue::try_from_lines(lines) {
            Ok(p1_value) => Ok(p1_value.get()),
            Err(e) => Err(e),
        }
    }
}

/// The day: the file that holds its input, and the answer of its one part.
pub struct Day02Processor(pub String);

impl Day02Processor {
    pub fn new() -> (r: Self)
        ensures
            r.0@ == DAY_02_FILE@,
    {
        Self(DAY_02_FILE.to_owned())
    }

    /// Works out the day for the lines of the input.
    pub fn process(&self, lines: &Vec<String>) -> (r: Result<i64, Error>)
        ensures
            r == PartOneProcessor::answer(line_views(lines@)),
    {
        PartOneProcessor::new(self.0.as_str()).process(lines)
    }
}

impl Default for Day02Processor {
    fn default() -> (r: Self)
        ensures
            r.0@ == DAY_02_FILE@,
    {
        Self::new()
    }
}

} // verus!
