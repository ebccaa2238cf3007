use aoc::aoc_25::day_04::{Day04Processor, PaperRollGrid, Position, BUFFER_CHAR};
use aoc::aoc_25::Error;

fn sample_lines() -> Vec<String> {
    [
        "..@@.@@@@.",
        "@@@.@.@.@@",
        "@@@@@.@.@@",
        "@.@@@@..@.",
        "@@.@@@@.@@",
        ".@@@@@@@.@",
        ".@.@.@.@@@",
        "@.@@@.@@@@",
        ".@@@@@@@@.",
        "@.@.@@@.@.",
    ]
    .iter()
    .map(|s| s.to_string())
    .collect()
}

fn create_buffered_row(size: usize) -> Vec<char> {
    vec![BUFFER_CHAR; size]
}

#[test]
fn test_new_paper_roll_grid() {
    let buffered_row = create_buffered_row(6);
    let initial_buffer: Vec<Vec<char>> = vec![buffered_row.clone(), buffered_row];
    let expected = PaperRollGrid {
        buffered_grid: initial_buffer,
    };

    assert_eq!(expected, PaperRollGrid::new(4));
}

#[test]
fn test_add_row_to_paper_roll_grid() {
    let buffered_row = create_buffered_row(6);
    let added_row = vec![BUFFER_CHAR, 'b', 'l', 'a', 'h', BUFFER_CHAR];
    let expected = PaperRollGrid {
        buffered_grid: vec![buffered_row.clone(), added_row, buffered_row],
    };

    let mut paper_roll_grid = PaperRollGrid::new(4);
    paper_roll_grid.add_row("blah");

    assert_eq!(expected, paper_roll_grid);
}

#[test]
fn test_neighbors() {
    // The grid:
    // = = = = = = =
    // = a b c d e =
    // = 1 2 3 4 5 =
    // = f g h i j =
    // = 6 7 8 9 0 =
    // = = = = = = =

    let mut grid = PaperRollGrid::new(5);
    grid.add_row("abcde");
    grid.add_row("12345");
    grid.add_row("fghij");
    grid.add_row("67890");

    let expected1 = vec!['b', 'c', 'd', '2', '4', 'g', 'h', 'i']; // position 2,3
    let expected2 = vec!['h', 'i', 'j', '8', '0', '=', '=', '=']; // position 4,4

    // Any buffer position should return no neighbors
    assert!(grid.neighbors(Position(0, 0)).is_empty());
    assert!(grid.neighbors(Position(5, 3)).is_empty());
    assert!(grid.neighbors(Position(2, 6)).is_empty());

    assert_eq!(expected1, grid.neighbors(Position(2, 3)));
    assert_eq!(expected2, grid.neighbors(Position(4, 4)));
}

#[test]
fn test_removable_rolls() {
    let grid = PaperRollGrid::try_from_lines(&sample_lines()).unwrap();

    assert_eq!(13, grid.removable_rolls());
}

#[test]
fn rows_are_laid_in_their_order() {
    let mut grid = PaperRollGrid::new(2);
    grid.add_row("ab");
    grid.add_row("cd");
    assert_eq!(
        vec![
            vec!['=', '=', '=', '='],
            vec!['=', 'a', 'b', '='],
            vec!['=', 'c', 'd', '='],
            vec!['=', '=', '=', '='],
        ],
        grid.buffered_grid
    );
}

#[test]
fn roll_with_four_rolls_around_stays() {
    let lines: Vec<String> = ["@@@", "@@@", "@@@"].iter().map(|s| s.to_string()).collect();
    let grid = PaperRollGrid::try_from_lines(&lines).unwrap();
    assert!(grid.is_removable(Position(1, 1)));
    assert!(!grid.is_removable(Position(1, 2)));
    assert!(!grid.is_removable(Position(2, 2)));
    assert_eq!(4, grid.removable_rolls());
    assert_eq!(Ok(4), grid.checked_removable_rolls());
}

#[test]
fn plan_without_rolls_or_without_lines() {
    let lines: Vec<String> = ["...", "..."].iter().map(|s| s.to_string()).collect();
    assert_eq!(Ok(0), Day04Processor::default().process(&lines));
    let none: Vec<String> = vec![];
    assert_eq!(Err(Error::InvalidInput), Day04Processor::default().process(&none));
}

#[test]
fn ragged_plan_is_invalid_input() {
    let lines: Vec<String> = ["..", "...@"].iter().map(|s| s.to_string()).collect();
    let grid = PaperRollGrid::try_from_lines(&lines).unwrap();
    assert!(!grid.is_walkable());
    assert_eq!(Err(Error::InvalidInput), grid.checked_removable_rolls());
    assert_eq!(Err(Error::InvalidInput), Day04Processor::default().process(&lines));
    let harmless: Vec<String> = ["..", "...."].iter().map(|s| s.to_string()).collect();
    assert_eq!(Ok(0), Day04Processor::default().process(&harmless));
}

#[test]
fn the_width_of_the_frame_is_counted_in_bytes() {
    let lines: Vec<String> = vec![String::from("é@")];
    let grid = PaperRollGrid::try_from_lines(&lines).unwrap();
    assert_eq!(vec!['='; 5], grid.buffered_grid[0]);
    assert_eq!(vec!['=', 'é', '@', '='], grid.buffered_grid[1]);
    assert_eq!(vec!['='; 5], grid.buffered_grid[2]);
    assert_eq!(Ok(1), grid.checked_removable_rolls());
}

#[test]
fn the_day_of_the_sample_plan() {
    assert_eq!(Ok(13), Day04Processor::default().process(&sample_lines()));
    assert_eq!(Ok(13), Day04Processor::default().process_part1(&sample_lines()));
}
