use aoc::aoc_25::AoC25Processor;

fn lines_of(text: &[&str]) -> Vec<String> {
    text.iter().map(|s| s.to_string()).collect()
}

fn sample_inputs() -> Vec<Vec<String>> {
    vec![
        lines_of(&["L68", "L30", "R48", "L5", "R60", "L55", "L1", "L99", "R14", "L82"]),
        lines_of(&["11-22,95-115,998-1012"]),
        lines_of(&["987654321111111", "811111111111119"]),
        lines_of(&["@@@", "@@@", "@@@"]),
        lines_of(&["3-5", "", "1", "5"]),
        lines_of(&["123 328  51 64 ", " 45 64  387 23 ", "  6 98  215 314", "*   +   *   + "]),
        lines_of(&["..S..", "..^..", ".^.^.", "....."]),
        lines_of(&["0,0,0", "1,0,0", "3,0,0", "7,1,1"]),
        lines_of(&["7,1", "11,1", "11,7"]),
    ]
}

#[test]
fn second_year_answers_of_small_inputs() {
    let answers = AoC25Processor::process(&sample_inputs());
    assert_eq!((Ok(3), Ok(6)), answers.day_01);
    assert_eq!(Ok(11 + 22 + 99 + 1010), answers.day_02);
    assert_eq!((Ok(98 + 89), Ok(987654321111 + 811111111119)), answers.day_03);
    assert_eq!(Ok(4), answers.day_04);
    assert_eq!(Ok(1), answers.day_05);
    assert_eq!((Ok(4277556), Ok(3263827)), answers.day_06);
    assert_eq!((Ok(3), Ok(4)), answers.day_07);
    assert_eq!((Ok(4), Ok(21)), answers.day_08);
    assert_eq!(Ok(35), answers.day_09);
}

#[test]
fn second_year_is_the_same_on_every_run() {
    let inputs = sample_inputs();
    let once = AoC25Processor::process(&inputs);
    let again = AoC25Processor::process(&inputs);
    assert_eq!(once.day_01, again.day_01);
    assert_eq!(once.day_02, again.day_02);
    assert_eq!(once.day_03, again.day_03);
    assert_eq!(once.day_04, again.day_04);
    assert_eq!(once.day_05, again.day_05);
    assert_eq!(once.day_06, again.day_06);
    assert_eq!(once.day_07, again.day_07);
    assert_eq!(once.day_08, again.day_08);
    assert_eq!(once.day_09, again.day_09);
}
