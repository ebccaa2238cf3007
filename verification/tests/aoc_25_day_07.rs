use aoc::aoc_25::day_07::{
    BeamTracker, Day07Input, Day07Processor, PartOneValue, PartTwoValue, QuantumTachyonManifold,
    TachyonManifold,
};
use aoc::aoc_25::Error;
use std::collections::HashSet;

fn sample_lines() -> Vec<String> {
    [
        ".......S.......",
        "...............",
        ".......^.......",
        "...............",
        "......^.^......",
        "...............",
        ".....^.^.^.....",
        "...............",
        "....^.^...^....",
        "...............",
        "...^.^...^.^...",
        "...............",
        "..^...^.....^..",
        "...............",
        ".^.^.^.^.^...^.",
        "...............",
    ]
    .iter()
    .map(|s| s.to_string())
    .collect()
}

fn lines_of(text: &[&str]) -> Vec<String> {
    text.iter().map(|s| s.to_string()).collect()
}

#[test]
fn test_input_from_file_reader() {
    let input = Day07Input::from_lines(&sample_lines());

    assert_eq!(
        ".......S.......".chars().collect::<Vec<char>>(),
        input.lines[0]
    )
}

#[test]
fn day_07_test_part_one_value_from_reader() {
    let p1_value = PartOneValue::try_from_lines(&sample_lines()).unwrap();

    assert_eq!(21, p1_value.get())
}

#[test]
fn day_07_test_part_two_value_from_reader() {
    let p2_value = PartTwoValue::try_from_lines(&sample_lines()).unwrap();

    assert_eq!(40, p2_value.get())
}

#[test]
fn grid_without_splitters_has_no_split_and_one_path() {
    let lines = lines_of(&["..S..", ".....", "....."]);
    assert_eq!(Ok(PartOneValue(0)), PartOneValue::try_from_lines(&lines));
    assert_eq!(Ok(PartTwoValue(1)), PartTwoValue::try_from_lines(&lines));
    let only = lines_of(&["S"]);
    assert_eq!(Ok(PartOneValue(0)), PartOneValue::try_from_lines(&only));
    assert_eq!(Ok(PartTwoValue(1)), PartTwoValue::try_from_lines(&only));
}

#[test]
fn grid_without_rows_is_invalid_input() {
    let none: Vec<String> = vec![];
    assert_eq!(Err(Error::InvalidInput), PartOneValue::try_from_lines(&none));
    assert_eq!(Err(Error::InvalidInput), PartTwoValue::try_from_lines(&none));
}

#[test]
fn tracker_splits_only_where_the_beam_runs() {
    let mut tracker = BeamTracker::new(4);
    tracker.init(".S.S".chars().collect());
    assert_eq!(HashSet::from([1]), tracker.traversal_indexes);
    tracker.split(2);
    assert_eq!(0, tracker.splits);
    tracker.split(1);
    assert_eq!(1, tracker.splits);
    assert_eq!(HashSet::from([0, 2]), tracker.traversal_indexes);
    tracker.split(0);
    assert_eq!(2, tracker.splits);
    assert_eq!(HashSet::from([1, 2]), tracker.traversal_indexes);
}

#[test]
fn tracker_stops_at_the_right_edge() {
    let mut tracker = BeamTracker::new(3);
    tracker.init("...S".chars().collect());
    tracker.split(3);
    assert_eq!(1, tracker.splits);
    assert_eq!(HashSet::from([2]), tracker.traversal_indexes);
    let mut without = BeamTracker::new(3);
    without.init("....".chars().collect());
    assert_eq!(HashSet::new(), without.traversal_indexes);
}

#[test]
fn splitters_side_by_side_split_one_after_the_other() {
    let lines = lines_of(&[".S.", ".^^"]);
    assert_eq!(Ok(PartOneValue(2)), PartOneValue::try_from_lines(&lines));
    let mut manifold = TachyonManifold::create(Day07Input::from_lines(&lines));
    assert_eq!(2, manifold.traversal_splits());
    // nothing goes on behind the last column
    assert_eq!(HashSet::from([0, 1]), manifold.tracker.traversal_indexes);
    // a second traversal goes on from where the first one ended
    assert_eq!(4, manifold.traversal_splits());
    assert_eq!(HashSet::from([0, 1]), manifold.tracker.traversal_indexes);
}

#[test]
fn one_row_of_a_traversal() {
    let lines = lines_of(&["..S..", "..^..", ".^.^."]);
    let mut manifold = TachyonManifold::create(Day07Input::from_lines(&lines));
    manifold.tracker.init(manifold.diagram[0].clone());
    manifold.traverse(1);
    assert_eq!(1, manifold.tracker.splits);
    assert_eq!(HashSet::from([1, 3]), manifold.tracker.traversal_indexes);
    manifold.traverse(2);
    assert_eq!(3, manifold.tracker.splits);
    assert_eq!(HashSet::from([0, 2, 4]), manifold.tracker.traversal_indexes);
    assert_eq!(Some(6), manifold.checked_traversal_splits());
}

#[test]
fn beam_runs_up_to_the_last_column_of_a_wide_grid() {
    let lines = lines_of(&["...S.", "...^.", "....^"]);
    let mut manifold = TachyonManifold::create(Day07Input::from_lines(&lines));
    assert_eq!(4, manifold.tracker.right_index);
    assert_eq!(2, manifold.traversal_splits());
    assert_eq!(HashSet::from([2, 3]), manifold.tracker.traversal_indexes);
    let empty: Vec<String> = vec![String::new()];
    assert_eq!(
        0,
        TachyonManifold::create(Day07Input::from_lines(&empty))
            .tracker
            .right_index
    );
}

#[test]
fn paths_meet_and_add_up() {
    let lines = lines_of(&["..S..", "..^..", ".^.^.", "....."]);
    assert_eq!(Ok(PartTwoValue(4)), PartTwoValue::try_from_lines(&lines));
    let mut manifold = QuantumTachyonManifold::create(Day07Input::from_lines(&lines));
    assert_eq!(4, manifold.traverse_all());
    assert_eq!(Ok(4), manifold.checked_traverse_all());
}

#[test]
fn grid_of_zeros() {
    assert_eq!(
        vec![vec![0i64; 3], vec![0i64; 3]],
        QuantumTachyonManifold::build_grid(2, 3)
    );
    let none: Vec<Vec<i64>> = vec![];
    assert_eq!(none, QuantumTachyonManifold::build_grid(0, 3));
}

#[test]
fn splitter_at_an_edge_hands_its_paths_to_the_neighbour_that_exists() {
    // in the first column only the right neighbour takes the path
    assert_eq!(
        Ok(PartTwoValue(1)),
        PartTwoValue::try_from_lines(&lines_of(&["S.", "^."]))
    );
    assert_eq!(
        Ok(PartTwoValue(1)),
        PartTwoValue::try_from_lines(&lines_of(&["S..", "^.."]))
    );
    // in the last column only the left one
    assert_eq!(
        Ok(PartTwoValue(1)),
        PartTwoValue::try_from_lines(&lines_of(&["..S", "..^"]))
    );
    // in a grid of one column the path ends at the splitter
    assert_eq!(
        Ok(PartTwoValue(0)),
        PartTwoValue::try_from_lines(&lines_of(&["S", "^"]))
    );
    // the paths of both neighbours of the edge add up below
    assert_eq!(
        Ok(PartTwoValue(2)),
        PartTwoValue::try_from_lines(&lines_of(&[".S.", ".^.", "^.^", "..."]))
    );
    let mut manifold =
        QuantumTachyonManifold::create(Day07Input::from_lines(&lines_of(&["S.", "^."])));
    assert_eq!(Ok(1), manifold.checked_traverse_all());
    assert_eq!(1, manifold.traverse_all());
    // the split counter clamps in the same way
    assert_eq!(
        Ok(PartOneValue(1)),
        PartOneValue::try_from_lines(&lines_of(&["S..", "^.."]))
    );
}

#[test]
fn splitter_in_the_first_row_is_reached_by_no_path() {
    assert_eq!(
        Ok(PartTwoValue(1)),
        PartTwoValue::try_from_lines(&lines_of(&[".^.S", "...."]))
    );
    assert_eq!(
        Ok(PartTwoValue(1)),
        PartTwoValue::try_from_lines(&lines_of(&["^S", ".."]))
    );
}

#[test]
fn cell_outside_the_first_row_is_invalid_input() {
    assert_eq!(
        Err(Error::InvalidInput),
        PartTwoValue::try_from_lines(&lines_of(&["S", ".."]))
    );
    assert_eq!(
        Err(Error::InvalidInput),
        PartTwoValue::try_from_lines(&lines_of(&["S.", ".^^"]))
    );
    assert_eq!(
        Ok(PartTwoValue(0)),
        PartTwoValue::try_from_lines(&lines_of(&["S.", "x"]))
    );
}

#[test]
fn too_many_paths_overflow() {
    // every splitter row doubles the paths
    let mut lines: Vec<String> = Vec::new();
    let width = 2 * 64 + 3;
    let middle = width / 2;
    let mut first = vec!['.'; width];
    first[middle] = 'S';
    lines.push(first.into_iter().collect());
    for row in 0..64 {
        let mut line = vec!['.'; width];
        let mut col = middle - row;
        while col <= middle + row {
            line[col] = '^';
            col += 2;
        }
        lines.push(line.into_iter().collect());
    }
    assert_eq!(Err(Error::Overflow), PartTwoValue::try_from_lines(&lines));
    lines.pop();
    lines.pop();
    assert_eq!(
        Ok(PartTwoValue(1 << 62)),
        PartTwoValue::try_from_lines(&lines)
    );
}

#[test]
fn both_parts_of_the_manifold() {
    assert_eq!(
        (Ok(21), Ok(40)),
        Day07Processor::default().process(&sample_lines())
    );
    assert_eq!(Ok(21), Day07Processor::default().process_part1(&sample_lines()));
    assert_eq!(Ok(40), Day07Processor::default().process_part2(&sample_lines()));
}
