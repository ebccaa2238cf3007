//! The puzzles of the second year.

pub mod circuits;
pub mod day_01;
pub mod day_02;
pub mod day_03;
pub mod day_04;
pub mod day_05;
pub mod day_06;
pub mod day_07;
pub mod day_08;
pub mod day_09;
pub mod distance;
pub mod error;
pub mod partition;
pub mod wires;
pub mod wiring;

pub use error::Error;

use crate::text::line_views;
use day_01::Day01Processor;
use day_02::Day02Processor;
use day_03::Day03Processor;
use day_04::Day04Processor;
use day_05::Day05Processor;
use day_06::Day06Processor;
use day_07::Day07Processor;
use day_08::Day08Processor;
use day_09::Day09Processor;
use vstd::prelude::*;

verus! {

/// The answers of all the days of the year. A day with two parts has both
/// answers together, part one first.
pub struct Answers {
    pub day_01: (Result<i32, Error>, Result<i32, Error>),
    pub day_02: Result<i64, Error>,
    pub day_03: (Result<i64, Error>, Result<i64, Error>),
    pub day_04: Result<i64, Error>,
    pub day_05: Result<i64, Error>,
    pub day_06: (Result<i64, Error>, Result<i64, Error>),
    pub day_07: (Result<i64, Error>, Result<i64, Error>),
    pub day_08: (Result<i64, Error>, Result<i64, Error>),
    pub day_09: Result<i64, Error>,
}

/// `answers` holds what each day makes of its lines; `inputs` holds the lines
/// of the days in their order.
pub open spec fn are_answers(inputs: Seq<Seq<Seq<char>>>, answers: Answers) -> bool {
    &&& answers.day_01 == Day01Processor::answers(inputs[0])
    &&& answers.day_02 == day_02::PartOneProcessor::answer(inputs[1])
    &&& answers.day_03 == Day03Processor::answers(inputs[2])
    &&& answers.day_04 == Day04Processor::answer(inputs[3])
    &&& answers.day_05 == Day05Processor::answer(inputs[4])
    &&& answers.day_06 == Day06Processor::answers(inputs[5])
    &&& answers.day_07 == Day07Processor::answers(inputs[6])
    &&& Day08Processor::is_answer_of_part1(inputs[7], answers.day_08.0)
    &&& answers.day_08.1 == Day08Processor::answer_of_part2(inputs[7])
    &&& Day09Processor::is_answer(inputs[8], answers.day_09)
}

/// The lines of each input.
pub open spec fn input_views(inputs: Seq<Vec<String>>) -> Seq<Seq<Seq<char>>> {
    Seq::new(inputs.len(), |i: int| line_views(inputs[i]@))
}

/// All the days of the year, one after the other.
pub struct AoC25Processor {}

impl AoC25Processor {
    /// Works out every day of the year. `inputs` holds the lines of the nine
    /// inputs in the order of the days.
    pub fn process(inputs: &Vec<Vec<String>>) -> (r: Answers)
        requires
            inputs@.len() == 9,
        ensures
            are_answers(input_views(inputs@), r),
    {
        Answers {
            day_01: Day01Processor::default().process(&inputs[0]),
            day_02: Day02Processor::default().process(&inputs[1]),
            day_03: Day03Processor::default().process(&inputs[2]),
            day_04: Day04Processor::default().process(&inputs[3]),
            day_05: Day05Processor::default().process(&inputs[4]),
            day_06: Day06Processor::default().process(&inputs[5]),
            day_07: Day07Processor::default().process(&inputs[6]),
            day_08: Day08Processor::default().process(&inputs[7]),
            day_09: Day09Processor::default().process(&inputs[8]),
        }
    }
}

/// The answers are fixed by the inputs: whenever the days are worked out for
/// the same lines, they come to the same.
pub proof fn lemma_same_inputs_same_answers(
    inputs: Seq<Seq<Seq<char>>>,
    first: Answers,
    second: Answers,
)
    requires
        are_answers(inputs, first),
        are_answers(inputs, second),
    ensures
        first == second,
{
    day_08::lemma_answer_of_part1_unique(inputs[7], first.day_08.0, second.day_08.0);
    day_09::lemma_answer_unique(inputs[8], first.day_09, second.day_09);
}


} // verus!
