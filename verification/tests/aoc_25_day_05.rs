use aoc::aoc_25::day_05::{Day05Processor, FreshIdRanges, IngredientIDs, PartOneValue};

fn sample_lines() -> Vec<String> {
    [
        "3-5", "10-14", "16-20", "12-18", "", "1", "5", "8", "11", "17", "32",
    ]
    .iter()
    .map(|s| s.to_string())
    .collect()
}

#[test]
fn test_is_fresh_id_range_match() {
    assert!(FreshIdRanges::is_fresh_id_range(String::from("15-30")));
    assert!(!FreshIdRanges::is_fresh_id_range(String::from("77")));
    assert!(!FreshIdRanges::is_fresh_id_range(String::from("")));
}

#[test]
fn test_add_range() {
    let expected = FreshIdRanges(vec![5..=30]);
    let mut fresh_id_ranges = FreshIdRanges::new();
    fresh_id_ranges.add_range(String::from("5-30"));

    assert_eq!(expected, fresh_id_ranges);
}

#[test]
fn test_is_ingredient_id() {
    assert!(IngredientIDs::is_ingredient_id(String::from("72")));
    assert!(!IngredientIDs::is_ingredient_id(String::from("")));
    assert!(!IngredientIDs::is_ingredient_id(String::from("5-30")));
}

#[test]
fn test_is_fresh_ingredient() {
    let mut fresh_id_ranges = FreshIdRanges::new();
    fresh_id_ranges.add_range(String::from("100-125"));
    fresh_id_ranges.add_range(String::from("150-175"));

    // Fresh Ingredients
    assert!(fresh_id_ranges.is_fresh_ingredient(100));
    assert!(fresh_id_ranges.is_fresh_ingredient(115));
    assert!(fresh_id_ranges.is_fresh_ingredient(125));
    assert!(fresh_id_ranges.is_fresh_ingredient(150));
    assert!(fresh_id_ranges.is_fresh_ingredient(165));
    assert!(fresh_id_ranges.is_fresh_ingredient(175));

    // Spoiled Ingredients
    assert!(!fresh_id_ranges.is_fresh_ingredient(99));
    assert!(!fresh_id_ranges.is_fresh_ingredient(126));
    assert!(!fresh_id_ranges.is_fresh_ingredient(149));
    assert!(!fresh_id_ranges.is_fresh_ingredient(176));
    assert!(!fresh_id_ranges.is_fresh_ingredient(200));
}

#[test]
fn day_05_test_part_one_value_from_reader() {
    assert_eq!(3, PartOneValue::try_from_lines(&sample_lines()).unwrap().get());
}

#[test]
fn range_that_is_none_is_not_added() {
    let mut ranges = FreshIdRanges::new();
    ranges.add_range(String::from("5"));
    ranges.add_range(String::from("5-"));
    ranges.add_range(String::from("5-99999999999999999999"));
    ranges.add_range(String::from("٣-٤"));
    assert_eq!(FreshIdRanges::new(), ranges);
    assert!(FreshIdRanges::is_fresh_id_range(String::from("٣-٤")));
    ranges.add_range(String::from("30-5"));
    assert_eq!(FreshIdRanges(vec![30..=5]), ranges);
    assert!(!ranges.is_fresh_ingredient(10));
    assert_eq!(1, ranges.ranges().len());
}

#[test]
fn ingredient_ids_are_kept_in_their_order() {
    let mut ids = IngredientIDs::new();
    ids.add_ingredient(String::from("72"));
    ids.add_ingredient(String::from("x"));
    ids.add_ingredient(String::from("-3"));
    ids.add_ingredient(String::from(""));
    assert_eq!(IngredientIDs(vec![72, -3]), ids);
}

#[test]
fn ingredient_before_its_range_is_not_fresh() {
    let lines: Vec<String> = ["4", "3-5", "4", "x", "4 ", "99999999999999999999"]
        .iter()
        .map(|s| s.to_string())
        .collect();
    assert_eq!(Ok(PartOneValue(1)), PartOneValue::try_from_lines(&lines));
    let none: Vec<String> = vec![];
    assert_eq!(Ok(PartOneValue(0)), PartOneValue::try_from_lines(&none));
}

#[test]
fn the_day_of_the_sample_pantry() {
    assert_eq!(Ok(3), Day05Processor::default().process(&sample_lines()));
    assert_eq!(Ok(3), Day05Processor::default().process_part1(&sample_lines()));
}
