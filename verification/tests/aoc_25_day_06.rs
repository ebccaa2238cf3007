use aoc::aoc_25::day_06::{
    product_i64, Day06Input, Day06Processor, Operation, PartOneAccumulator, PartOneValue,
    PartTwoValue,
};
use aoc::aoc_25::Error;
use aoc::pattern::Found;
use aoc::text::IntErrorKind;

fn sample_lines() -> Vec<String> {
    [
        "123 328  51 64 ",
        " 45 64  387 23 ",
        "  6 98  215 314",
        "*   +   *   + ",
    ]
    .iter()
    .map(|s| s.to_string())
    .collect()
}

fn lines_of(text: &[&str]) -> Vec<String> {
    text.iter().map(|s| s.to_string()).collect()
}

#[test]
fn test_input_from_reader() {
    let worksheet_lines = vec![
        String::from("123 328  51 64 "),
        String::from(" 45 64  387 23 "),
        String::from("  6 98  215 314"),
    ];
    let operations = String::from("*   +   *   + ");

    let expected = Day06Input {
        worksheet_lines,
        operations,
    };

    assert_eq!(expected, Day06Input::try_from_lines(sample_lines()).unwrap());
}

#[test]
fn test_operation_from_str() {
    assert_eq!(Operation::Add, Operation::from("+"));
    assert_eq!(Operation::Multiply, Operation::from("*"));
}

#[test]
fn test_part_one_value_from_input() {
    let input = Day06Input::try_from_lines(sample_lines()).unwrap();

    assert_eq!(
        PartOneValue(4277556),
        PartOneValue::try_from(input).unwrap()
    );
}

#[test]
fn day_06_test_part_one_value_from_reader() {
    assert_eq!(
        PartOneValue(4277556),
        PartOneValue::try_from_lines(sample_lines()).unwrap()
    );
}

#[test]
fn test_part_two_value_from_input() {
    let input = Day06Input::try_from_lines(sample_lines()).unwrap();

    assert_eq!(
        PartTwoValue(3263827),
        PartTwoValue::try_from(input).unwrap()
    );
}

#[test]
fn day_06_test_part_two_value_from_reader() {
    assert_eq!(
        PartTwoValue(3263827),
        PartTwoValue::try_from_lines(sample_lines()).unwrap()
    );
}

#[test]
fn anything_but_a_plus_sign_multiplies() {
    assert_eq!(Operation::Multiply, Operation::from(""));
    assert_eq!(Operation::Multiply, Operation::from("-"));
    assert_eq!(Operation::Multiply, Operation::from("++"));
    assert_eq!(Operation::Multiply, Operation::from(" +"));
}

#[test]
fn input_without_lines_is_invalid() {
    assert_eq!(Err(Error::InvalidInput), Day06Input::try_from_lines(vec![]));
    assert_eq!(Err(Error::InvalidInput), PartOneValue::try_from_lines(vec![]));
    assert_eq!(Err(Error::InvalidInput), PartTwoValue::try_from_lines(vec![]));
}

#[test]
fn accumulator_starts_by_the_operations() {
    let mut accumulator =
        PartOneAccumulator::init(&vec![Operation::Multiply, Operation::Add, Operation::Add]);
    assert_eq!(vec![1, 0, 0], accumulator.column_totals);
    accumulator.add_value(5, 1);
    accumulator.multiply_value(-4, 0);
    accumulator.multiply_value(3, 0);
    assert_eq!(vec![-12, 5, 0], accumulator.column_totals);
    assert_eq!(-7, accumulator.total());
    assert_eq!(Some(-7), accumulator.checked_total());
    let full = PartOneAccumulator {
        column_totals: vec![i64::MAX, 1],
    };
    assert_eq!(None, full.checked_total());
}

#[test]
fn part_one_errors() {
    assert_eq!(
        Err(Error::InvalidIntError(IntErrorKind::InvalidDigit)),
        PartOneValue::try_from_lines(lines_of(&["1 x", "+ +"]))
    );
    assert_eq!(
        Err(Error::InvalidInput),
        PartOneValue::try_from_lines(lines_of(&["1", "+ +"]))
    );
    assert_eq!(
        Err(Error::Overflow),
        PartOneValue::try_from_lines(lines_of(&["9223372036854775807", "1", "+"]))
    );
    assert_eq!(
        Err(Error::Overflow),
        PartOneValue::try_from_lines(lines_of(&["4611686018427387904", "2", "*"]))
    );
    assert_eq!(
        Err(Error::Overflow),
        PartOneValue::try_from_lines(lines_of(&[
            "9223372036854775807 1",
            "+ +"
        ]))
    );
    // the number that cannot be read comes before the number that is missing
    assert_eq!(
        Err(Error::InvalidIntError(IntErrorKind::InvalidDigit)),
        PartOneValue::try_from_lines(lines_of(&["1 2 x", "+ + + +"]))
    );
}

#[test]
fn part_one_of_small_worksheets() {
    assert_eq!(
        Ok(PartOneValue(0)),
        PartOneValue::try_from_lines(lines_of(&[""]))
    );
    assert_eq!(
        Ok(PartOneValue(1)),
        PartOneValue::try_from_lines(lines_of(&["* +"]))
    );
    assert_eq!(
        Ok(PartOneValue(-6 + 7)),
        PartOneValue::try_from_lines(lines_of(&["2 3 99", "-3 4", "x +"]))
    );
}

#[test]
fn part_two_from_signs_that_were_found() {
    let input = Day06Input::try_from_lines(sample_lines()).unwrap();
    let found = vec![
        Found {
            start: 0,
            end: 4,
            text: String::from("*   "),
        },
        Found {
            start: 4,
            end: 8,
            text: String::from("+   "),
        },
        Found {
            start: 8,
            end: 12,
            text: String::from("*   "),
        },
        Found {
            start: 12,
            end: 14,
            text: String::from("+ "),
        },
    ];
    assert_eq!(
        Ok(PartTwoValue(3263827)),
        PartTwoValue::from_found(&input, &found)
    );
    let one = vec![Found {
        start: 4,
        end: 8,
        text: String::from("+   "),
    }];
    // a single sign has all the columns from its start to the end of the worksheet
    assert_eq!(
        Err(Error::InvalidIntError(IntErrorKind::Empty)),
        PartTwoValue::from_found(&input, &one)
    );
    let none: Vec<Found> = vec![];
    assert_eq!(Ok(PartTwoValue(0)), PartTwoValue::from_found(&input, &none));
    let underflow = vec![
        Found {
            start: 0,
            end: 0,
            text: String::new(),
        },
        Found {
            start: 0,
            end: 1,
            text: String::from("+"),
        },
    ];
    assert_eq!(
        Err(Error::Overflow),
        PartTwoValue::from_found(&input, &underflow)
    );
}

#[test]
fn part_two_errors() {
    assert_eq!(
        Err(Error::InvalidInput),
        PartTwoValue::try_from_lines(lines_of(&["+"]))
    );
    assert_eq!(
        Err(Error::InvalidIntError(IntErrorKind::InvalidDigit)),
        PartTwoValue::try_from_lines(lines_of(&["1x", "+ "]))
    );
    assert_eq!(
        Err(Error::InvalidIntError(IntErrorKind::Empty)),
        PartTwoValue::try_from_lines(lines_of(&["1 ", "+ "]))
    );
    // one digit in each line: the columns spell 9223372036854775807 and 2
    let mut lines: Vec<String> = "9223372036854775807"
        .chars()
        .map(|c| format!("{} ", c))
        .collect();
    lines[0] = String::from("92");
    lines.push(String::from("* "));
    assert_eq!(Err(Error::Overflow), PartTwoValue::try_from_lines(lines.clone()));
    let last = lines.len() - 1;
    lines[last] = String::from("+ ");
    assert_eq!(Err(Error::Overflow), PartTwoValue::try_from_lines(lines.clone()));
    lines[0] = String::from("9 ");
    lines.insert(0, String::from(" 0"));
    assert_eq!(
        Ok(PartTwoValue(i64::MAX)),
        PartTwoValue::try_from_lines(lines)
    );
}

#[test]
fn a_backslash_is_a_sign_that_multiplies() {
    assert_eq!(
        Ok(PartTwoValue(12 + 12)),
        PartTwoValue::try_from_lines(lines_of(&["34 57", "\\  + "]))
    );
}

#[test]
fn products_stop_where_they_leave_the_type() {
    assert_eq!(Some(24), product_i64(&vec![2, 3, 4]));
    assert_eq!(Some(-5), product_i64(&vec![-5]));
    assert_eq!(None, product_i64(&vec![i64::MAX, 2]));
    assert_eq!(None, product_i64(&vec![i64::MAX, 2, 0]));
    assert_eq!(Some(0), product_i64(&vec![0, i64::MAX, 2]));
}

#[test]
fn both_parts_of_the_worksheet() {
    assert_eq!(
        (Ok(4277556), Ok(3263827)),
        Day06Processor::default().process(&sample_lines())
    );
    assert_eq!(
        Ok(4277556),
        Day06Processor::default().process_part1(&sample_lines())
    );
    assert_eq!(
        Ok(3263827),
        Day06Processor::default().process_part2(&sample_lines())
    );
}
