use aoc::aoc_25::day_09::{Day09Input, Day09Processor, Point};
use aoc::aoc_25::Error;
use aoc::text::IntErrorKind;

fn sample_lines() -> Vec<String> {
    ["7,1", "11,1", "11,7", "9,7", "9,5", "2,5", "2,3", "7,3"]
        .iter()
        .map(|s| s.to_string())
        .collect()
}

#[test]
fn test_point_from_string() {
    assert_eq!(Point(7, 1), Point::try_from(String::from("7,1")).unwrap());
}

#[test]
fn test_day09input_from_reader() {
    let points = vec![
        Point(7, 1),
        Point(11, 1),
        Point(11, 7),
        Point(9, 7),
        Point(9, 5),
        Point(2, 5),
        Point(2, 3),
        Point(7, 3),
    ];
    let expected = Day09Input { points };

    assert_eq!(expected, Day09Input::try_from_lines(&sample_lines()).unwrap());
}

#[test]
fn test_largest_rectangle() {
    let sample_input = Day09Input::try_from_lines(&sample_lines()).unwrap();

    assert_eq!(50, sample_input.largest_rectangle());
}

#[test]
fn point_knows_its_row_and_column() {
    let point = Point(7, 1);
    assert_eq!(7, point.column());
    assert_eq!(1, point.row());
}

#[test]
fn area_counts_both_corners() {
    assert_eq!(1, Point(3, 3).area_between(Point(3, 3)));
    assert_eq!(24, Point(2, 5).area_between(Point(9, 7)));
    assert_eq!(24, Point(9, 7).area_between(Point(2, 5)));
    assert_eq!(50, Point(2, 5).area_between(Point(11, 1)));
    assert_eq!(Some(50), Point(11, 1).checked_area_between(Point(2, 5)));
}

#[test]
fn area_too_large_for_the_answer() {
    assert_eq!(
        None,
        Point(0, 0).checked_area_between(Point(usize::MAX, usize::MAX))
    );
    assert_eq!(None, Point(0, 0).checked_area_between(Point(usize::MAX, 0)));
    assert_eq!(
        Some(i64::MAX),
        Point(0, 5).checked_area_between(Point(i64::MAX as usize - 1, 5))
    );
    assert_eq!(
        None,
        Point(0, 5).checked_area_between(Point(i64::MAX as usize, 5))
    );
    let input = Day09Input {
        points: vec![Point(0, 0), Point(1, 1), Point(usize::MAX, 2)],
    };
    assert_eq!(Err(Error::Overflow), input.checked_largest_rectangle());
}

#[test]
fn point_errors() {
    assert_eq!(Err(Error::InvalidInput), Point::try_from(String::from("7")));
    assert_eq!(
        Err(Error::InvalidIntError(IntErrorKind::Empty)),
        Point::try_from(String::new())
    );
    assert_eq!(
        Err(Error::InvalidIntError(IntErrorKind::Empty)),
        Point::try_from(String::from("7,"))
    );
    assert_eq!(
        Err(Error::InvalidIntError(IntErrorKind::InvalidDigit)),
        Point::try_from(String::from("-7,1"))
    );
    assert_eq!(
        Err(Error::InvalidIntError(IntErrorKind::InvalidDigit)),
        Point::try_from(String::from("x"))
    );
    assert_eq!(Ok(Point(7, 1)), Point::try_from(String::from("7,1,anything")));
}

#[test]
fn largest_rectangle_of_few_points() {
    let one = Day09Input {
        points: vec![Point(4, 4)],
    };
    assert_eq!(0, one.largest_rectangle());
    assert_eq!(Ok(0), one.checked_largest_rectangle());
    let none = Day09Input { points: vec![] };
    assert_eq!(Err(Error::InvalidInput), none.checked_largest_rectangle());
    let twice = Day09Input {
        points: vec![Point(4, 4), Point(4, 4)],
    };
    assert_eq!(1, twice.largest_rectangle());
}

#[test]
fn the_day_of_the_sample_tiles() {
    assert_eq!(Ok(50), Day09Processor::default().process(&sample_lines()));
    assert_eq!(Ok(50), Day09Processor::default().process_part1(&sample_lines()));
    let none: Vec<String> = vec![];
    assert_eq!(Err(Error::InvalidInput), Day09Processor::default().process(&none));
    let broken: Vec<String> = vec![String::from("1,2"), String::from("3")];
    assert_eq!(Err(Error::InvalidInput), Day09Processor::default().process(&broken));
}
