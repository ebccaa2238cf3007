use aoc::aoc_25::day_03::{BatteryBank, Day03Processor, JoltageTracker, PartOneValue, PartTwoValue};
use aoc::aoc_25::Error;
use aoc::text::IntErrorKind;

fn sample_lines() -> Vec<String> {
    [
        "987654321111111",
        "811111111111119",
        "234234234234278",
        "818181911112111",
    ]
    .iter()
    .map(|s| s.to_string())
    .collect()
}

#[test]
fn test_battery_bank_from_string() {
    let batteries = vec![1, 2, 3, 4, 5, 6, 7, 8, 9];

    assert_eq!(
        BatteryBank(batteries),
        BatteryBank::try_from(String::from("123456789")).unwrap()
    )
}

#[test]
fn test_max_joltage() {
    assert_eq!(
        98,
        BatteryBank::try_from(String::from("987654321111111"))
            .unwrap()
            .max_joltage()
    );

    assert_eq!(
        89,
        BatteryBank::try_from(String::from("811111111111119"))
            .unwrap()
            .max_joltage()
    );

    assert_eq!(
        78,
        BatteryBank::try_from(String::from("234234234234278"))
            .unwrap()
            .max_joltage()
    );

    assert_eq!(
        92,
        BatteryBank::try_from(String::from("818181911112111"))
            .unwrap()
            .max_joltage()
    );
}

#[test]
fn day_03_test_part_one_value_from_reader() {
    assert_eq!(357, PartOneValue::try_from_lines(&sample_lines()).unwrap().get())
}

#[test]
fn test_adjust_joltage1() {
    let mut tracker = JoltageTracker::new(12, 15);
    let batteries = vec![2, 3, 4, 2, 3, 4, 2, 3, 4, 2, 3, 4, 2, 7, 8];

    let mut position = 0;
    for battery in batteries.into_iter() {
        position += 1;
        tracker.adjust_joltage(battery, position);
    }

    let expected = JoltageTracker {
        tracked_joltage: vec![4, 3, 4, 2, 3, 4, 2, 3, 4, 2, 7, 8],
        joltage_size: 12,
        possible_batteries: 15,
    };

    assert_eq!(expected, tracker)
}

#[test]
fn test_adjust_joltage2() {
    let mut tracker = JoltageTracker::new(12, 15);
    let batteries = vec![9, 8, 7, 6, 5, 4, 3, 2, 1, 1, 1, 1, 1, 1, 1];

    let mut position = 0;
    for battery in batteries.into_iter() {
        position += 1;
        tracker.adjust_joltage(battery, position);
    }

    let expected = JoltageTracker {
        tracked_joltage: vec![9, 8, 7, 6, 5, 4, 3, 2, 1, 1, 1, 1],
        joltage_size: 12,
        possible_batteries: 15,
    };

    assert_eq!(expected, tracker)
}

#[test]
fn test_joltage() {
    let tracker = JoltageTracker {
        tracked_joltage: vec![4, 3, 4, 2, 3, 4, 2, 3, 4, 2, 7, 8],
        joltage_size: 12,
        possible_batteries: 15,
    };

    assert_eq!(434234234278, tracker.joltage())
}

#[test]
fn test_part_two_value_from_file_reader() {
    let p2_value = PartTwoValue::try_from_lines(&sample_lines());

    assert_eq!(3121910778619, p2_value.unwrap().get())
}

#[test]
fn bank_with_a_character_that_is_no_digit() {
    assert_eq!(
        Err(Error::InvalidIntError(IntErrorKind::InvalidDigit)),
        BatteryBank::try_from(String::from("12a"))
    );
    assert_eq!(
        Err(Error::InvalidIntError(IntErrorKind::InvalidDigit)),
        BatteryBank::try_from(String::from("-1"))
    );
    assert_eq!(
        Err(Error::InvalidIntError(IntErrorKind::InvalidDigit)),
        BatteryBank::try_from(String::from("1 2"))
    );
    assert_eq!(Ok(BatteryBank(vec![])), BatteryBank::try_from(String::new()));
}

#[test]
fn max_joltage_of_short_banks() {
    assert_eq!(0, BatteryBank(vec![]).max_joltage());
    assert_eq!(5, BatteryBank(vec![5]).max_joltage());
    assert_eq!(5, BatteryBank(vec![0, 5]).max_joltage());
    assert_eq!(50, BatteryBank(vec![5, 0]).max_joltage());
    assert_eq!(55, BatteryBank(vec![5, 5]).max_joltage());
    assert_eq!(99, BatteryBank(vec![9, 1, 9]).max_joltage());
}

#[test]
fn max_joltage_that_an_i8_cannot_hold_is_zero() {
    assert_eq!(127, BatteryBank(vec![12, 7]).max_joltage());
    assert_eq!(0, BatteryBank(vec![12, 8]).max_joltage());
    assert_eq!(0, BatteryBank(vec![100, 100]).max_joltage());
}

#[test]
fn joltage_of_nothing_or_of_what_is_no_number_is_zero() {
    assert_eq!(0, JoltageTracker::new(12, 15).joltage());
    let negative = JoltageTracker {
        tracked_joltage: vec![1, -2],
        joltage_size: 12,
        possible_batteries: 15,
    };
    assert_eq!(0, negative.joltage());
    let long = JoltageTracker {
        tracked_joltage: vec![127; 7],
        joltage_size: 12,
        possible_batteries: 15,
    };
    assert_eq!(0, long.joltage());
    let fits = JoltageTracker {
        tracked_joltage: vec![127; 6],
        joltage_size: 12,
        possible_batteries: 15,
    };
    assert_eq!(127127127127127127, fits.joltage());
}

#[test]
fn overridden_joltage_of_the_sample_banks() {
    assert_eq!(
        987654321111,
        BatteryBank::try_from(String::from("987654321111111"))
            .unwrap()
            .overridden_joltage()
    );
    assert_eq!(
        811111111119,
        BatteryBank::try_from(String::from("811111111111119"))
            .unwrap()
            .overridden_joltage()
    );
    assert_eq!(
        434234234278,
        BatteryBank::try_from(String::from("234234234234278"))
            .unwrap()
            .overridden_joltage()
    );
    assert_eq!(
        888911112111,
        BatteryBank::try_from(String::from("818181911112111"))
            .unwrap()
            .overridden_joltage()
    );
    assert_eq!(12, BatteryBank(vec![1, 2]).overridden_joltage());
}

#[test]
fn bank_too_long_to_count_overflows() {
    let lines = vec!["1".repeat(128)];
    assert_eq!(Err(Error::Overflow), PartTwoValue::try_from_lines(&lines));
    let fits = vec!["1".repeat(127)];
    assert_eq!(
        Ok(PartTwoValue(111111111111)),
        PartTwoValue::try_from_lines(&fits)
    );
    assert_eq!(Ok(PartOneValue(11)), PartOneValue::try_from_lines(&lines));
}

#[test]
fn both_parts_of_the_banks() {
    assert_eq!(
        (Ok(357), Ok(3121910778619)),
        Day03Processor::default().process(&sample_lines())
    );
    let none: Vec<String> = vec![];
    assert_eq!((Ok(0), Ok(0)), Day03Processor::default().process(&none));
}

fn next(seed: &mut u64) -> u64 {
    *seed ^= *seed << 13;
    *seed ^= *seed >> 7;
    *seed ^= *seed << 17;
    *seed
}

/// The largest number that `size` of the digits spell in their order.
fn best_of(digits: &[i8], size: usize) -> i64 {
    let mut best: i64 = -1;
    let n = digits.len();
    for mask in 0u32..(1u32 << n) {
        if mask.count_ones() as usize != size {
            continue;
        }
        let mut value: i64 = 0;
        for (i, d) in digits.iter().enumerate() {
            if mask & (1 << i) != 0 {
                value = value * 10 + *d as i64;
            }
        }
        best = best.max(value);
    }
    best
}

#[test]
fn joltages_are_the_largest_that_the_batteries_spell() {
    let mut seed: u64 = 0x2545f4914f6cdd1d;
    for round in 0..60 {
        let n = 2 + (next(&mut seed) % 14) as usize;
        let digits: Vec<i8> = (0..n)
            .map(|_| {
                if round % 3 == 0 {
                    (next(&mut seed) % 3) as i8 + 1
                } else {
                    (next(&mut seed) % 10) as i8
                }
            })
            .collect();
        let bank = BatteryBank(digits.clone());
        assert_eq!(best_of(&digits, 2), bank.max_joltage() as i64, "{:?}", digits);
        if n >= 12 {
            assert_eq!(best_of(&digits, 12), bank.overridden_joltage(), "{:?}", digits);
        }
    }
}
