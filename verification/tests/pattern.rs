use aoc::aoc_24::day_01::INPUT_NODE_RE;
use aoc::aoc_25::day_01::ROTATION_RE;
use aoc::aoc_25::day_02::PRODUCT_RANGE_RE;
use aoc::aoc_25::day_05::{FRESH_ID_RANGE_RE, INGREDIENT_ID_RE};
use aoc::aoc_25::day_06::OPERATIONS_RE;
use aoc::pattern::accepts;

#[test]
fn patterns_of_the_days_are_accepted() {
    for pattern in [
        INPUT_NODE_RE,
        ROTATION_RE,
        PRODUCT_RANGE_RE,
        FRESH_ID_RANGE_RE,
        INGREDIENT_ID_RE,
        OPERATIONS_RE,
    ] {
        assert!(accepts(pattern), "{}", pattern);
    }
}

#[test]
fn patterns_that_are_none_are_turned_down() {
    assert!(!accepts("("));
    assert!(!accepts("[a"));
    assert!(!accepts("(?<name"));
    assert!(!accepts("\\w{1000}"));
    assert!(accepts(""));
}

#[test]
fn patterns_are_written_as_they_are_meant() {
    assert_eq!(r"(?<left>\d+) +(?<right>\d+)$", INPUT_NODE_RE);
    assert_eq!(r"(?<direction>[LR])(?<distance>\d+)", ROTATION_RE);
    assert_eq!(r"^(?<start>\d+)-(?<end>\d+)$", PRODUCT_RANGE_RE);
    assert_eq!(r"^(?<start>\d+)-(?<end>\d+)$", FRESH_ID_RANGE_RE);
    assert_eq!(r"^(?<id>\d+)$", INGREDIENT_ID_RE);
    assert_eq!(r"[\\*\\+] *", OPERATIONS_RE);
}
