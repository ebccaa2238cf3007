//! The puzzles of the first year.

pub mod day_01;
pub mod day_02;
pub mod error;

pub use error::Error;

use crate::text::line_views;
use day_01::Day01Processor;
use day_02::Day02Processor;
use vstd::prelude::*;

verus! {

/// The answers of both days, both parts of a day together.
pub type Answers = (
    (Result<i32, Error>, Result<i32, Error>),
    (Result<i16, Error>, Result<i16, Error>),
);

/// `answers` holds what each day makes of its lines.
pub open spec fn are_answers(day_01: Seq<Seq<char>>, day_02: Seq<Seq<char>>, answers: Answers) -> bool {
    answers.0 == Day01Processor::answers(day_01) && answers.1 == Day02Processor::answers(day_02)
}

/// The answers are fixed by the inputs: whenever the days are worked out for
/// the same lines, they come to the same.
pub proof fn lemma_same_inputs_same_answers(
    day_01: Seq<Seq<char>>,
    day_02: Seq<Seq<char>>,
    first: Answers,
    second: Answers,
)
    requires
        are_answers(day_01, day_02, first),
        are_answers(day_01, day_02, second),
    ensures
        first == second,
{
}

/// All the days of the year, one after the other.
pub struct AoC24Processor {}

impl AoC24Processor {
    /// Works out every day of the year: `day_01` and `day_02` are the lines of
    /// the two inputs. The answers come in the order of the days, both parts
    /// of a day together.
    pub fn process(day_01: &Vec<String>, day_02: &Vec<String>) -> (r: Answers)
        ensures
            are_answers(line_views(day_01@), line_views(day_02@), r),
    {
        let first = Day01Processor::default().process(day_01);
        let second = Day02Processor::default().process(day_02);
        (first, second)
    }
}

} // verus!
