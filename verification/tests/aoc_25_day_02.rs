use aoc::aoc_25::day_02::{Day02Processor, PartOneValue, ProductRange};
use aoc::aoc_25::Error;
use aoc::text::IntErrorKind;

const SAMPLE: &str = "11-22,95-115,998-1012,1188511880-1188511890,222220-222224,1698522-1698528,446443-446449,38593856-38593862,565653-565659,824824821-824824827,2121212118-2121212124";

#[test]
fn test_setup() {
    assert_eq!(1, 1)
}

#[test]
fn product_range_from_string() {
    let expected = ProductRange {
        start_id: 11,
        end_id: 22,
    };

    assert_eq!(
        expected,
        ProductRange::try_from(String::from("11-22")).unwrap()
    )
}

#[test]
fn invalid_product_id() {
    assert!(ProductRange::invalid_product_id(11));
    assert!(!ProductRange::invalid_product_id(12));
    assert!(!ProductRange::invalid_product_id(111));
    assert!(ProductRange::invalid_product_id(1111))
}

#[test]
fn invalid_ids() {
    let product_range = ProductRange {
        start_id: 11,
        end_id: 22,
    };
    let expected = vec![11, 22];

    let product_range2 = ProductRange {
        start_id: 95,
        end_id: 112,
    };
    let expected2 = vec![99];

    assert_eq!(expected, product_range.invalid_ids());
    assert_eq!(expected2, product_range2.invalid_ids());
}

#[test]
fn sum_invalid_product_ids() {
    let lines = vec![String::from(SAMPLE)];

    assert_eq!(1227775554, PartOneValue::try_from_lines(&lines).unwrap().get())
}

#[test]
fn no_negative_id_is_invalid() {
    assert!(!ProductRange::invalid_product_id(-11));
    assert!(!ProductRange::invalid_product_id(-1));
    assert!(!ProductRange::invalid_product_id(-111));
    assert!(!ProductRange::invalid_product_id(0));
    assert!(ProductRange::invalid_product_id(1010));
    assert!(!ProductRange::invalid_product_id(1001));
    let range = ProductRange {
        start_id: -30,
        end_id: 30,
    };
    assert_eq!(vec![11, 22], range.invalid_ids());
}

#[test]
fn empty_range_has_no_invalid_ids() {
    let range = ProductRange {
        start_id: 22,
        end_id: 11,
    };
    let none: Vec<i64> = vec![];
    assert_eq!(none, range.invalid_ids());
}

#[test]
fn product_range_errors() {
    assert_eq!(
        Err(Error::InvalidInput),
        ProductRange::try_from(String::from("11"))
    );
    assert_eq!(
        Err(Error::InvalidInput),
        ProductRange::try_from(String::from("11-22 "))
    );
    assert_eq!(
        Err(Error::InvalidInput),
        ProductRange::try_from(String::from("-11-22"))
    );
    assert_eq!(
        Err(Error::InvalidIntError(IntErrorKind::PosOverflow)),
        ProductRange::try_from(String::from("1-9223372036854775808"))
    );
}

#[test]
fn only_the_first_line_counts() {
    let lines = vec![String::from("11-22"), String::from("nonsense")];
    assert_eq!(Ok(PartOneValue(33)), PartOneValue::try_from_lines(&lines));
    let none: Vec<String> = vec![];
    assert_eq!(Ok(PartOneValue(0)), PartOneValue::try_from_lines(&none));
    let bad = vec![String::from("11-22,")];
    assert_eq!(Err(Error::InvalidInput), PartOneValue::try_from_lines(&bad));
}

#[test]
fn range_that_ends_at_the_largest_id_overflows() {
    let ranges = vec![ProductRange {
        start_id: i64::MAX,
        end_id: i64::MAX,
    }];
    assert_eq!(Err(Error::Overflow), PartOneValue::from_ranges(&ranges));
    let lines = vec![String::from("9223372036854775807-9223372036854775807")];
    assert_eq!(Err(Error::Overflow), PartOneValue::try_from_lines(&lines));
}

#[test]
fn sum_that_is_too_large_overflows() {
    let big = ProductRange {
        start_id: 999_999_999_999_999_999,
        end_id: 999_999_999_999_999_999,
    };
    assert_eq!(vec![999_999_999_999_999_999i64], big.invalid_ids());
    assert_eq!(
        Ok(PartOneValue(1_999_999_999_999_999_998)),
        PartOneValue::from_ranges(&vec![big, big])
    );
    assert_eq!(
        Ok(PartOneValue(8_999_999_999_999_999_991)),
        PartOneValue::from_ranges(&vec![big; 9])
    );
    assert_eq!(Err(Error::Overflow), PartOneValue::from_ranges(&vec![big; 10]));
    let line = vec!["999999999999999999-999999999999999999"; 10].join(",");
    assert_eq!(
        Err(Error::Overflow),
        PartOneValue::try_from_lines(&vec![line])
    );
}

#[test]
fn the_day_of_the_sample() {
    let lines = vec![String::from(SAMPLE)];
    assert_eq!(Ok(1227775554), Day02Processor::default().process(&lines));
}
