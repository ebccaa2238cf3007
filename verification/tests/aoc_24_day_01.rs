use aoc::aoc_24::day_01::{
    DistanceCalculator, InputNode, PartOneValue, PartTwoValue, SimilarityCalculator,
};
use aoc::aoc_24::Error;
use aoc::text::IntErrorKind;

fn build_input_node(left: i32, right: i32) -> InputNode {
    InputNode { left, right }
}

fn sample_nodes() -> Vec<InputNode> {
    vec![
        build_input_node(3, 4),
        build_input_node(4, 3),
        build_input_node(2, 5),
        build_input_node(1, 3),
        build_input_node(3, 9),
        build_input_node(3, 3),
    ]
}

#[test]
fn input_node_from_string() {
    let expected = InputNode { left: 3, right: 4 };

    assert_eq!(
        expected,
        InputNode::try_from(String::from("3   4")).unwrap()
    )
}

#[test]
fn distance_calculation() {
    let distance_calculator = DistanceCalculator {
        nodes: sample_nodes(),
    };

    assert_eq!(PartOneValue(11), distance_calculator.calculate())
}

#[test]
fn similarity_calculation() {
    let similarity_calculator = SimilarityCalculator::new(sample_nodes());

    assert_eq!(PartTwoValue(31), similarity_calculator.calculate().unwrap())
}

#[test]
fn input_node_takes_the_end_of_the_line() {
    assert_eq!(
        InputNode { left: 12, right: 7 },
        InputNode::try_from(String::from("x 12  7")).unwrap()
    );
}

#[test]
fn input_node_without_two_numbers_is_invalid_input() {
    assert_eq!(Err(Error::InvalidInput), InputNode::try_from(String::from("3")));
    assert_eq!(Err(Error::InvalidInput), InputNode::try_from(String::from("3 4 ")));
    assert_eq!(Err(Error::InvalidInput), InputNode::try_from(String::new()));
}

#[test]
fn input_node_with_a_number_too_large_is_invalid_int() {
    assert_eq!(
        Err(Error::InvalidInt(IntErrorKind::PosOverflow)),
        InputNode::try_from(String::from("3 2147483648"))
    );
    assert_eq!(
        Err(Error::InvalidInt(IntErrorKind::PosOverflow)),
        InputNode::try_from(String::from("99999999999 4"))
    );
}

#[test]
fn input_node_with_foreign_digits_is_invalid_int() {
    // The pattern takes any decimal digit; the number is read from ASCII digits only.
    assert_eq!(
        Err(Error::InvalidInt(IntErrorKind::InvalidDigit)),
        InputNode::try_from(String::from("\u{0663} 4"))
    );
}

#[test]
fn distance_of_the_sample_lines() {
    let lines: Vec<String> = ["3   4", "4   3", "2   5", "1   3", "3   9", "3   3"]
        .iter()
        .map(|s| s.to_string())
        .collect();
    assert_eq!(Ok(PartOneValue(11)), PartOneValue::try_from_lines(&lines));
    assert_eq!(Ok(PartTwoValue(31)), PartTwoValue::try_from_lines(&lines));
}

#[test]
fn distance_too_large_is_overflow() {
    let nodes = vec![build_input_node(i32::MAX, 0), build_input_node(1, 0)];
    assert_eq!(None, DistanceCalculator::new(nodes).checked_calculate());
    let lines = vec![String::from("2147483647 0"), String::from("1 0")];
    assert_eq!(Err(Error::Overflow), PartOneValue::try_from_lines(&lines));
}

#[test]
fn similarity_too_large_is_overflow() {
    let nodes = vec![
        build_input_node(i32::MAX, i32::MAX),
        build_input_node(1, i32::MAX),
    ];
    assert_eq!(
        Err(Error::Overflow),
        SimilarityCalculator::new(nodes).calculate()
    );
}

#[test]
fn first_bad_line_decides_the_error() {
    let lines = vec![
        String::from("1 2"),
        String::from("oops"),
        String::from("1 99999999999"),
    ];
    assert_eq!(Err(Error::InvalidInput), PartOneValue::try_from_lines(&lines));
    assert_eq!(Err(Error::InvalidInput), PartTwoValue::try_from_lines(&lines));
}

#[test]
fn empty_input_has_distance_zero() {
    let lines: Vec<String> = vec![];
    assert_eq!(Ok(PartOneValue(0)), PartOneValue::try_from_lines(&lines));
    assert_eq!(Ok(PartTwoValue(0)), PartTwoValue::try_from_lines(&lines));
}
