use aoc::aoc_24::day_02::{Level, PartOneValue, PartTwoValue, ReactorReport};
use aoc::aoc_24::Error;
use aoc::text::IntErrorKind;

fn lines_of(text: &[&str]) -> Vec<String> {
    text.iter().map(|s| s.to_string()).collect()
}

#[test]
fn level_try_from_str() {
    assert_eq!(Level(5), Level::try_from("5").unwrap())
}

#[test]
fn reactor_report_try_from_string() {
    let reactor_report = ReactorReport {
        levels: vec![Level(7), Level(6), Level(4), Level(2), Level(1)],
    };

    assert_eq!(
        reactor_report,
        ReactorReport::try_from("7 6 4 2 1".to_string()).unwrap()
    )
}

#[test]
fn report_safely_decreasing() {
    assert!(ReactorReport::try_from("7 6 4 2 1".to_string())
        .unwrap()
        .is_safe())
}

#[test]
fn report_safely_increasing() {
    assert!(ReactorReport::try_from("1 3 6 7 9".to_string())
        .unwrap()
        .is_safe())
}

#[test]
fn report_unsafe_increase() {
    assert!(!ReactorReport::try_from("1 2 7 8 9".to_string())
        .unwrap()
        .is_safe())
}

#[test]
fn report_dampened_unsafe_increase() {
    assert!(!ReactorReport::try_from("1 2 7 8 9".to_string())
        .unwrap()
        .is_dampened_safe())
}

#[test]
fn report_unsafe_increase_and_decrease() {
    assert!(!ReactorReport::try_from("1 3 2 4 5".to_string())
        .unwrap()
        .is_safe())
}

#[test]
fn report_dampened_safe_increase_and_decrease() {
    assert!(ReactorReport::try_from("1 3 2 4 5".to_string())
        .unwrap()
        .is_dampened_safe())
}

#[test]
fn report_unsafe_no_change_in_level() {
    assert!(!ReactorReport::try_from("8 6 4 4 1".to_string())
        .unwrap()
        .is_safe())
}

#[test]
fn report_dampened_safe_no_change_in_level() {
    assert!(ReactorReport::try_from("8 6 4 4 1".to_string())
        .unwrap()
        .is_dampened_safe())
}

#[test]
fn report_with_one_level_is_safe() {
    let report = ReactorReport::try_from("5".to_string()).unwrap();
    assert!(report.is_safe());
    assert!(report.is_dampened_safe());
}

#[test]
fn report_with_a_step_too_wide_for_the_type_is_unsafe() {
    let report = ReactorReport {
        levels: vec![Level(i16::MAX), Level(i16::MIN)],
    };
    assert!(!report.is_safe());
    assert!(report.is_dampened_safe());
}

#[test]
fn report_with_two_spaces_has_an_empty_field() {
    assert_eq!(
        Err(Error::InvalidInt(IntErrorKind::Empty)),
        ReactorReport::try_from("7  6".to_string())
    );
    assert_eq!(
        Err(Error::InvalidInt(IntErrorKind::Empty)),
        ReactorReport::try_from(String::new())
    );
}

#[test]
fn report_with_a_level_out_of_range_is_invalid_int() {
    assert_eq!(
        Err(Error::InvalidInt(IntErrorKind::PosOverflow)),
        ReactorReport::try_from("1 32768".to_string())
    );
    assert_eq!(
        Err(Error::InvalidInt(IntErrorKind::NegOverflow)),
        ReactorReport::try_from("-32769 1".to_string())
    );
    assert_eq!(
        Err(Error::InvalidInt(IntErrorKind::InvalidDigit)),
        ReactorReport::try_from("1 x".to_string())
    );
}

#[test]
fn safe_reports_of_the_sample() {
    let lines = lines_of(&[
        "7 6 4 2 1",
        "1 2 7 8 9",
        "9 7 6 2 1",
        "1 3 2 4 5",
        "8 6 4 4 1",
        "1 3 6 7 9",
    ]);
    assert_eq!(Ok(PartOneValue(2)), PartOneValue::try_from_lines(&lines));
    assert_eq!(Ok(PartTwoValue(4)), PartTwoValue::try_from_lines(&lines));
}

#[test]
fn too_many_safe_reports_do_not_fit_the_answer() {
    let lines: Vec<String> = (0..32768).map(|_| String::from("1 2")).collect();
    assert_eq!(
        Err(Error::InvalidTryIntError),
        PartOneValue::try_from_lines(&lines)
    );
    assert_eq!(
        Err(Error::InvalidTryIntError),
        PartTwoValue::try_from_lines(&lines)
    );
    let fewer: Vec<String> = (0..32767).map(|_| String::from("1 2")).collect();
    assert_eq!(Ok(PartOneValue(32767)), PartOneValue::try_from_lines(&fewer));
}
