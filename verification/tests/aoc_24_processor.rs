use aoc::aoc_24::day_01::Day01Processor;
use aoc::aoc_24::day_02::Day02Processor;
use aoc::aoc_24::{AoC24Processor, Error};

fn lines_of(text: &[&str]) -> Vec<String> {
    text.iter().map(|s| s.to_string()).collect()
}

#[test]
fn first_year_answers_of_the_samples() {
    let day_01 = lines_of(&["3   4", "4   3", "2   5", "1   3", "3   9", "3   3"]);
    let day_02 = lines_of(&[
        "7 6 4 2 1",
        "1 2 7 8 9",
        "9 7 6 2 1",
        "1 3 2 4 5",
        "8 6 4 4 1",
        "1 3 6 7 9",
    ]);
    let answers = AoC24Processor::process(&day_01, &day_02);
    assert_eq!((Ok(11), Ok(31)), answers.0);
    assert_eq!((Ok(2), Ok(4)), answers.1);
}

#[test]
fn first_year_days_know_their_files() {
    assert_eq!("./resources/aoc_24/day_01.txt", Day01Processor::new().0);
    assert_eq!("./resources/aoc_24/day_02.txt", Day02Processor::default().0);
}

#[test]
fn first_year_is_the_same_on_every_run() {
    let day_01 = lines_of(&["3   4", "x"]);
    let day_02 = lines_of(&["1 2 3"]);
    let once = AoC24Processor::process(&day_01, &day_02);
    let again = AoC24Processor::process(&day_01, &day_02);
    assert_eq!(once, again);
    assert_eq!((Err(Error::InvalidInput), Err(Error::InvalidInput)), once.0);
}
