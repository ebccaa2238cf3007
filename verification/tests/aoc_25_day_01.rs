use aoc::aoc_25::day_01::{
    Day01Processor, Direction, Password, Rotation, RotationList, SafeDial,
};
use aoc::aoc_25::Error;
use aoc::text::IntErrorKind;

fn sample_lines() -> Vec<String> {
    ["L68", "L30", "R48", "L5", "R60", "L55", "L1", "L99", "R14", "L82"]
        .iter()
        .map(|s| s.to_string())
        .collect()
}

#[test]
fn left_rotation_from_string() {
    let expected = Rotation {
        direction: Direction::Left,
        distance: 32,
        full_rotations: 0,
    };

    assert_eq!(expected, Rotation::try_from(String::from("L32")).unwrap())
}

#[test]
fn right_rotation_from_string() {
    let expected = Rotation {
        direction: Direction::Right,
        distance: 77,
        full_rotations: 0,
    };

    assert_eq!(expected, Rotation::try_from(String::from("R77")).unwrap())
}

#[test]
fn rotation_list_from_reader() {
    let rotations = vec![
        Rotation {
            direction: Direction::Left,
            distance: 68,
            full_rotations: 0,
        },
        Rotation {
            direction: Direction::Left,
            distance: 30,
            full_rotations: 0,
        },
        Rotation {
            direction: Direction::Right,
            distance: 48,
            full_rotations: 0,
        },
        Rotation {
            direction: Direction::Left,
            distance: 5,
            full_rotations: 0,
        },
        Rotation {
            direction: Direction::Right,
            distance: 60,
            full_rotations: 0,
        },
        Rotation {
            direction: Direction::Left,
            distance: 55,
            full_rotations: 0,
        },
        Rotation {
            direction: Direction::Left,
            distance: 1,
            full_rotations: 0,
        },
        Rotation {
            direction: Direction::Left,
            distance: 99,
            full_rotations: 0,
        },
        Rotation {
            direction: Direction::Right,
            distance: 14,
            full_rotations: 0,
        },
        Rotation {
            direction: Direction::Left,
            distance: 82,
            full_rotations: 0,
        },
    ];
    let expected = RotationList(rotations);

    assert_eq!(expected, RotationList::try_from_lines(&sample_lines()).unwrap())
}

#[test]
fn password_from_rotation_list() {
    let rotations = RotationList::try_from_lines(&sample_lines()).unwrap();
    let password = Password::from(rotations);

    assert_eq!(3, password.landed_on_zero());
    assert_eq!(6, password.landed_on_zero() + password.zero_clicks())
}

#[test]
fn password_from_filereader() {
    let password = Password::try_from_lines(&sample_lines()).unwrap();

    assert_eq!(3, password.landed_on_zero());
    assert_eq!(6, password.landed_on_zero() + password.zero_clicks())
}

#[test]
fn rotation_with_whole_rounds() {
    assert_eq!(
        Ok(Rotation {
            direction: Direction::Right,
            distance: 34,
            full_rotations: 12,
        }),
        Rotation::try_from(String::from("R1234"))
    );
    assert_eq!(
        Ok(Rotation {
            direction: Direction::Left,
            distance: 0,
            full_rotations: 3,
        }),
        Rotation::try_from(String::from("L300"))
    );
}

#[test]
fn rotation_is_found_anywhere_in_the_line() {
    assert_eq!(
        Ok(Rotation {
            direction: Direction::Left,
            distance: 7,
            full_rotations: 0,
        }),
        Rotation::try_from(String::from("turn L7 please"))
    );
}

#[test]
fn rotation_errors() {
    assert_eq!(Err(Error::InvalidInput), Rotation::try_from(String::from("X12")));
    assert_eq!(Err(Error::InvalidInput), Rotation::try_from(String::from("L")));
    assert_eq!(Err(Error::InvalidInput), Rotation::try_from(String::new()));
    assert_eq!(
        Err(Error::InvalidIntError(IntErrorKind::PosOverflow)),
        Rotation::try_from(String::from("R2147483648"))
    );
}

#[test]
fn dial_starts_at_fifty() {
    assert_eq!(
        SafeDial {
            current_position: 50,
            zero_counter: 0,
            zero_clicks: 0
        },
        SafeDial::new()
    );
}

#[test]
fn dial_passes_zero_without_resting_there() {
    let mut dial = SafeDial::new();
    dial.apply_rotation(&Rotation {
        direction: Direction::Left,
        distance: 68,
        full_rotations: 0,
    });
    assert_eq!(
        SafeDial {
            current_position: 82,
            zero_counter: 0,
            zero_clicks: 1
        },
        dial
    );
    dial.apply_rotation(&Rotation {
        direction: Direction::Right,
        distance: 18,
        full_rotations: 2,
    });
    assert_eq!(
        SafeDial {
            current_position: 0,
            zero_counter: 1,
            zero_clicks: 3
        },
        dial
    );
    dial.apply_rotation(&Rotation {
        direction: Direction::Left,
        distance: 1,
        full_rotations: 0,
    });
    assert_eq!(
        SafeDial {
            current_position: 99,
            zero_counter: 1,
            zero_clicks: 3
        },
        dial
    );
}

#[test]
fn dial_that_cannot_turn_gives_no_password() {
    let dial = SafeDial {
        current_position: 10,
        zero_counter: 0,
        zero_clicks: i32::MAX,
    };
    let turn = Rotation {
        direction: Direction::Right,
        distance: 1,
        full_rotations: 1,
    };
    assert!(!dial.can_apply_rotation(&turn));
    let still = Rotation {
        direction: Direction::Right,
        distance: 1,
        full_rotations: 0,
    };
    assert!(dial.can_apply_rotation(&still));
    let far = RotationList(vec![
        Rotation {
            direction: Direction::Right,
            distance: 0,
            full_rotations: i32::MAX,
        },
        Rotation {
            direction: Direction::Right,
            distance: 0,
            full_rotations: 1,
        },
    ]);
    assert_eq!(None, Password::checked_from(&far));
}

#[test]
fn both_parts_of_the_sample() {
    let answers = Day01Processor::default().process(&sample_lines());
    assert_eq!((Ok(3), Ok(6)), answers);
    let broken: Vec<String> = vec![String::from("L1"), String::from("?")];
    assert_eq!(
        (Err(Error::InvalidInput), Err(Error::InvalidInput)),
        Day01Processor::default().process(&broken)
    );
    let far: Vec<String> = vec![String::from("R2147483600"); 100];
    assert_eq!(
        (Ok(0), Ok(2147483600)),
        Day01Processor::default().process(&far)
    );
    let too_far: Vec<String> = vec![String::from("R2147483600"); 101];
    assert_eq!(
        (Err(Error::Overflow), Err(Error::Overflow)),
        Day01Processor::default().process(&too_far)
    );
}
