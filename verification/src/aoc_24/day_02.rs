//! Reports of levels: a report is safe where its levels only rise or only
//! fall, by one to three at each step.

use crate::aoc_24::Error;
use crate::text::{chars_of, collect_all, line_views, parse_i16, parse_i16_spec, split, split_at_char, views};
use vstd::prelude::*;

verus! {

/// One reading of a report.
#[derive(Clone, Copy, Debug, PartialEq)]
pub struct Level(pub i16);

impl Level {
    /// The level that a piece of text denotes.
    pub open spec fn parse(text: Seq<char>) -> Result<Level, Error> {
        match parse_i16_spec(text) {
            Ok(v) => Ok(Level(v as i16)),
            Err(kind) => Err(Error::InvalidInt(kind)),
        }
    }

    /// Reads a level from the characters of a field.
    pub fn from_chars(text: &Vec<char>) -> (r: Result<Level, Error>)
        ensures
            r == Self::parse(text@),
    {
        match parse_i16(text) {
            Ok(v) => Ok(Level(v)),
            Err(kind) => Err(Error::InvalidInt(kind)),
        }
    }

    /// Reads a level from a field.
    pub fn try_from(value: &str) -> (r: Result<Level, Error>)
        ensures
            r == Self::parse(value@),
    {
        let text = chars_of(value);
        Self::from_chars(&text)
    }
}

/// The levels rise by one to three at each step.
pub open spec fn rising(levels: Seq<Level>) -> bool {
    forall|i: int| 0 < i < levels.len() ==> 1 <= (#[trigger] levels[i]).0 - levels[i - 1].0 <= 3
}

/// The levels fall by one to three at each step.
pub open spec fn falling(levels: Seq<Level>) -> bool {
    forall|i: int| 0 < i < levels.len() ==> 1 <= levels[i - 1].0 - (#[trigger] levels[i]).0 <= 3
}

/// The levels only rise or only fall, by one to three at each step.
pub open spec fn safe(levels: Seq<Level>) -> bool {
    rising(levels) || falling(levels)
}

/// The levels are safe as they are, or become so when one of them is left out.
pub open spec fn dampened_safe(levels: Seq<Level>) -> bool {
    safe(levels) || exists|k: int| 0 <= k < levels.len() && safe(#[trigger] levels.remove(k))
}

/// One line of the input: the levels of a report.
#[derive(Debug, PartialEq)]
pub struct ReactorReport {
    pub levels: Vec<Level>,
}

impl ReactorReport {
    /// The levels that a line holds: its fields between single spaces, each a
    /// number, or the error of the first field that is none.
    pub open spec fn parse(line: Seq<char>) -> Result<Seq<Level>, Error> {
        collect_all(split(line, ' '), |field: Seq<char>| Level::parse(field))
    }

    /// Whether the report is safe.
    pub fn is_safe(&self) -> (r: bool)
        requires
            self.levels@.len() >= 1,
        ensures
            r == safe(self.levels@),
    {
        let n: usize = self.levels.len();
        let mut up: bool = false;
        let mut down: bool = false;
        let ghost mut up_at: int = 0;
        let ghost mut down_at: int = 0;
        let mut idx: usize = 1;
        while idx < n
            invariant
                1 <= idx <= n,
                n == self.levels@.len(),
                !(up && down),
                up ==> 0 < up_at < idx && self.levels@[up_at].0 - self.levels@[up_at - 1].0 > 0,
                down ==> 0 < down_at < idx && self.levels@[down_at].0 - self.levels@[down_at
                    - 1].0 <= 0,
                !down ==> forall|i: int|
                    0 < i < idx ==> 1 <= (#[trigger] self.levels@[i]).0 - self.levels@[i - 1].0
                        <= 3,
                !up ==> forall|i: int|
                    0 < i < idx ==> 1 <= self.levels@[i - 1].0 - (#[trigger] self.levels@[i]).0
                        <= 3,
            decreases n - idx,
        {
            let current: i32 = self.levels[idx].0 as i32;
            let prev: i32 = self.levels[idx - 1].0 as i32;
            let diff: i32 = current - prev;
            let size: i32 = if diff < 0 {
                -diff
            } else {
                diff
            };
            if !(1 <= size && size <= 3) {
                assert(!rising(self.levels@)) by {
                    assert(!(1 <= self.levels@[idx as int].0 - self.levels@[idx - 1].0 <= 3));
                }
                assert(!falling(self.levels@)) by {
                    assert(!(1 <= self.levels@[idx - 1].0 - self.levels@[idx as int].0 <= 3));
                }
                return false;
            }
            if diff > 0 {
                up = true;
                proof {
                    up_at = idx as int;
                }
            } else {
                down = true;
                proof {
                    down_at = idx as int;
                }
            }
            if up && down {
                assert(!rising(self.levels@)) by {
                    assert(!(1 <= self.levels@[down_at].0 - self.levels@[down_at - 1].0 <= 3));
                }
                assert(!falling(self.levels@)) by {
                    assert(!(1 <= self.levels@[up_at - 1].0 - self.levels@[up_at].0 <= 3));
                }
                return false;
            }
            idx += 1;
        }
        true
    }

    /// Whether the report is safe, or would be with one level left out.
    pub fn is_dampened_safe(&self) -> (r: bool)
        requires
            self.levels@.len() >= 1,
        ensures
            r == dampened_safe(self.levels@),
    {
        if self.is_safe() {
            return true;
        }
        let n: usize = self.levels.len();
        let mut idx: usize = 0;
        while idx < n
            invariant
                idx <= n,
                n == self.levels@.len(),
                n >= 2,
                forall|k: int| 0 <= k < idx ==> !safe(#[trigger] self.levels@.remove(k)),
            decreases n - idx,
        {
            let mut levels: Vec<Level> = self.levels.clone();
            assert(levels@ == self.levels@);
            levels.remove(idx);
            if (ReactorReport { levels }).is_safe() {
                return true;
            }
            idx += 1;
        }
        false
    }

    /// Reads one line of the input.
    pub fn try_from(report: String) -> (r: Result<ReactorReport, Error>)
        ensures
            match r {
                Ok(parsed) => Self::parse(report@) == Ok::<Seq<Level>, Error>(parsed.levels@)
                    && parsed.levels@.len() >= 1,
                Err(e) => Self::parse(report@) == Err::<Seq<Level>, Error>(e),
            },
    {
        let text = chars_of(report.as_str());
        let fields = split_at_char(&text, ' ');
        let ghost texts = views(fields@);
        let ghost parse = |field: Seq<char>| Level::parse(field);
        let mut levels: Vec<Level> = Vec::new();
        let mut i: usize = 0;
        while i < fields.len()
            invariant
                i <= fields.len(),
                texts == views(fields@),
                parse == |field: Seq<char>| Level::parse(field),
                collect_all(texts.take(i as int), parse) == Ok::<Seq<Level>, Error>(levels@),
                levels@.len() == i,
                texts == split(report@, ' '),
                fields@.len() >= 1,
            decreases fields.len() - i,
        {
            proof {
                crate::text::lemma_collect_all_step(texts, parse, i as int);
            }
            match Level::from_chars(&fields[i]) {
                Ok(level) => {
                    levels.push(level);
                },
                Err(e) => {
                    proof {
                        crate::text::lemma_collect_all_error(texts, parse, i + 1);
                    }
                    return Err(e);
                },
            }
            i += 1;
        }
        assert(texts.take(i as int) == texts);
        Ok(Self { levels })
    }
}

/// The reports that the lines hold, or the error of the first line that is
/// none.
pub open spec fn parse_reports(lines: Seq<Seq<char>>) -> Result<Seq<Seq<Level>>, Error> {
    collect_all(lines, |line: Seq<char>| ReactorReport::parse(line))
}

/// The levels of each report.
pub open spec fn report_views(reports: Seq<ReactorReport>) -> Seq<Seq<Level>> {
    Seq::new(reports.len(), |i: int| reports[i].levels@)
}

/// Reads every line of the input.
pub fn read_reports(lines: &Vec<String>) -> (r: Result<Vec<ReactorReport>, Error>)
    ensures
        match r {
            Ok(reports) => parse_reports(line_views(lines@)) == Ok::<Seq<Seq<Level>>, Error>(
                report_views(reports@),
            ) && forall|i: int| 0 <= i < reports@.len() ==> (#[trigger] reports@[i]).levels@.len() >= 1,
            Err(e) => parse_reports(line_views(lines@)) == Err::<Seq<Seq<Level>>, Error>(e),
        },
{
    let ghost texts = line_views(lines@);
    let ghost parse = |line: Seq<char>| ReactorReport::parse(line);
    let mut reports: Vec<ReactorReport> = Vec::new();
    let mut i: usize = 0;
    assert(report_views(reports@) == Seq::<Seq<Level>>::empty());
    while i < lines.len()
        invariant
            i <= lines.len(),
            texts == line_views(lines@),
            parse == |line: Seq<char>| ReactorReport::parse(line),
            collect_all(texts.take(i as int), parse) == Ok::<Seq<Seq<Level>>, Error>(
                report_views(reports@),
            ),
            forall|i: int| 0 <= i < reports@.len() ==> (#[trigger] reports@[i]).levels@.len() >= 1,
        decreases lines.len() - i,
    {
        proof {
            crate::text::lemma_collect_all_step(texts, parse, i as int);
        }
        match ReactorReport::try_from(lines[i].clone()) {
            Ok(report) => {
                assert(report_views(reports@.push(report)) == report_views(reports@).push(
                    report.levels@,
                ));
                reports.push(report);
            },
            Err(e) => {
                proof {
                    crate::text::lemma_collect_all_error(texts, parse, i + 1);
                }
                return Err(e);
            },
        }
        i += 1;
    }
    assert(texts.take(i as int) == texts);
    Ok(reports)
}

/// How many of the reports meet `test`.
pub open spec fn count_reports(reports: Seq<Seq<Level>>, test: spec_fn(Seq<Level>) -> bool) -> nat
    decreases reports.len(),
{
    if reports.len() == 0 {
        0
    } else {
        count_reports(reports.drop_last(), test) + if test(reports.last()) {
            1nat
        } else {
            0nat
        }
    }
}

/// No more reports meet a test than there are.
pub proof fn lemma_count_reports_bound(reports: Seq<Seq<Level>>, test: spec_fn(Seq<Level>) -> bool)
    ensures
        count_reports(reports, test) <= reports.len(),
    decreases reports.len(),
{
    if reports.len() > 0 {
        lemma_count_reports_bound(reports.drop_last(), test);
    }
}

/// The count as an answer, where it fits an `i16`.
pub open spec fn count_as_answer(count: nat) -> Result<i16, Error> {
    if count <= i16::MAX {
        Ok(count as i16)
    } else {
        Err(Error::InvalidTryIntError)
    }
}

/// The answer of part one.
#[derive(Debug, PartialEq)]
pub struct PartOneValue(pub i16);

impl PartOneValue {
    pub fn value(&self) -> (v: i16)
        ensures
            v == self.0,
    {
        self.0
    }

    /// The number of safe reports among the lines.
    pub open spec fn of_lines(lines: Seq<Seq<char>>) -> Result<PartOneValue, Error> {
        match parse_reports(lines) {
            Err(e) => Err(e),
            Ok(reports) => match count_as_answer(
                count_reports(reports, |levels: Seq<Level>| safe(levels)),
            ) {
                Ok(count) => Ok(PartOneValue(count)),
                Err(e) => Err(e),
            },
        }
    }

    /// Reads the lines and counts the safe reports.
    pub fn try_from_lines(lines: &Vec<String>) -> (r: Result<PartOneValue, Error>)
        ensures
            r == Self::of_lines(line_views(lines@)),
    {
        let reactor_reports = match read_reports(lines) {
            Ok(reports) => reports,
            Err(e) => {
                return Err(e);
            },
        };
        let ghost all = report_views(reactor_reports@);
        let ghost test = |levels: Seq<Level>| safe(levels);
        let mut count: usize = 0;
        let mut i: usize = 0;
        while i < reactor_reports.len()
            invariant
                i <= reactor_reports.len(),
                all == report_views(reactor_reports@),
                test == |levels: Seq<Level>| safe(levels),
                count == count_reports(all.take(i as int), test),
                count <= i,
                forall|i: int|
                    0 <= i < reactor_reports@.len() ==> (#[trigger] reactor_reports@[i]).levels@.len()
                        >= 1,
            decreases reactor_reports.len() - i,
        {
            assert(all.take(i + 1).drop_last() == all.take(i as int));
            assert(all[i as int] == reactor_reports@[i as int].levels@);
            if reactor_reports[i].is_safe() {
                count += 1;
            }
            i += 1;
        }
        assert(all.take(i as int) == all);
        if count > i16::MAX as usize {
            return Err(Error::InvalidTryIntError);
        }
        Ok(PartOneValue(count as i16))
    }
}

/// The answer of part two.
#[derive(Debug, PartialEq)]
pub struct PartTwoValue(pub i16);

impl PartTwoValue {
    pub fn value(&self) -> (v: i16)
        ensures
            v == self.0,
    {
        self.0
    }

    /// The number of reports among the lines that are safe when at most one
    /// level is left out.
    pub open spec fn of_lines(lines: Seq<Seq<char>>) -> Result<PartTwoValue, Error> {
        match parse_reports(lines) {
            Err(e) => Err(e),
            Ok(reports) => match count_as_answer(
                count_reports(reports, |levels: Seq<Level>| dampened_safe(levels)),
            ) {
                Ok(count) => Ok(PartTwoValue(count)),
                Err(e) => Err(e),
            },
        }
    }

    /// Reads the lines and counts the reports that are safe when at most one
    /// level is left out.
    pub fn try_from_lines(lines: &Vec<String>) -> (r: Result<PartTwoValue, Error>)
        ensures
            r == Self::of_lines(line_views(lines@)),
    {
        let reactor_reports = match read_reports(lines) {
            Ok(reports) => reports,
            Err(e) => {
                return Err(e);
            },
        };
        let ghost all = report_views(reactor_reports@);
        let ghost test = |levels: Seq<Level>| dampened_safe(levels);
        let mut count: usize = 0;
        let mut i: usize = 0;
        while i < reactor_reports.len()
            invariant
                i <= reactor_reports.len(),
                all == report_views(reactor_reports@),
                test == |levels: Seq<Level>| dampened_safe(levels),
                count == count_reports(all.take(i as int), test),
                count <= i,
                forall|i: int|
                    0 <= i < reactor_reports@.len() ==> (#[trigger] reactor_reports@[i]).levels@.len()
                        >= 1,
            decreases reactor_reports.len() - i,
        {
            assert(all.take(i + 1).drop_last() == all.take(i as int));
            assert(all[i as int] == reactor_reports@[i as int].levels@);
            if reactor_reports[i].is_dampened_safe() {
                count += 1;
            }
            i += 1;
        }
        assert(all.take(i as int) == all);
        if count > i16::MAX as usize {
            return Err(Error::InvalidTryIntError);
        }
        Ok(PartTwoValue(count as i16))
    }
}

/// The input of this day.
pub const DAY_02_FILE: &'static str = "./resources/aoc_24/day_02.txt";

/// Part one of the day, for one input file.
pub struct PartOneProcessor(pub String);

impl PartOneProcessor {
    pub fn new(s: &str) -> (r: Self)
        ensures
            r.0@ == s@,
    {
        Self(s.to_owned())
    }

    /// The answer of part one for the lines of the input.
    pub fn process(&self, lines: &Vec<String>) -> (r: Result<i16, Error>)
        ensures
            r == match PartOneValue::of_lines(line_views(lines@)) {
                Ok(v) => Ok::<i16, Error>(v.0),
                Err(e) => Err(e),
            },
    {
        match PartOneValue::try_from_lines(lines) {
            Ok(p1_value) => Ok(p1_value.value()),
            Err(e) => Err(e),
        }
    }
}

/// Part two of the day, for one input file.
pub struct PartTwoProcessor(pub String);

impl PartTwoProcessor {
    pub fn new(s: &str) -> (r: Self)
        ensures
            r.0@ == s@,
    {
        Self(s.to_owned())
    }

    /// The answer of part two for the lines of the input.
    pub fn process(&self, lines: &Vec<String>) -> (r: Result<i16, Error>)
        ensures
            r == match PartTwoValue::of_lines(line_views(lines@)) {
                Ok(v) => Ok::<i16, Error>(v.0),
                Err(e) => Err(e),
            },
    {
        match PartTwoValue::try_from_lines(lines) {
            Ok(p2_value) => Ok(p2_value.value()),
            Err(e) => Err(e),
        }
    }
}

/// The day: the file that holds its input, and the answers of both parts.
pub struct Day02Processor(pub String);

impl Day02Processor {
    pub fn new() -> (r: Self)
        ensures
            r.0@ == DAY_02_FILE@,
    {
        Self(DAY_02_FILE.to_owned())
    }

    /// The answers of both parts for the lines of the input.
    pub open spec fn answers(lines: Seq<Seq<char>>) -> (Result<i16, Error>, Result<i16, Error>) {
        (
            match PartOneValue::of_lines(lines) {
                Ok(v) => Ok(v.0),
                Err(e) => Err(e),
            },
            match PartTwoValue::of_lines(lines) {
                Ok(v) => Ok(v.0),
                Err(e) => Err(e),
            },
        )
    }

    /// Works out both parts for the lines of the input.
    pub fn process(&self, lines: &Vec<String>) -> (r: (Result<i16, Error>, Result<i16, Error>))
        ensures
            r == Self::answers(line_views(lines@)),
    {
        let part_one = PartOneProcessor::new(self.0.as_str()).process(lines);
        let part_two = PartTwoProcessor::new(self.0.as_str()).process(lines);
        (part_one, part_two)
    }
}

impl Default for Day02Processor {
    fn default() -> (r: Self)
        ensures
            r.0@ == DAY_02_FILE@,
    {
        Self::new()
    }
}

} // verus!
