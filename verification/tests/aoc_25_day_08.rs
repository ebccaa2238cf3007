use aoc::aoc_25::circuits::{larger_first, leading};
use aoc::aoc_25::day_08::{Day08Processor, JunctionBox, Location, PlaygroundDecoration};
use aoc::aoc_25::wires::ascending_entries;
use aoc::aoc_25::distance::{root_to_double, round_to_double, Distance};
use aoc::aoc_25::Error;
use aoc::text::IntErrorKind;
use std::cmp::Ordering;
use std::collections::BTreeMap;
use std::collections::HashSet;

fn sample_lines() -> Vec<String> {
    [
        "162,817,812",
        "57,618,57",
        "906,360,560",
        "592,479,940",
        "352,342,300",
        "466,668,158",
        "542,29,236",
        "431,825,988",
        "739,650,466",
        "52,470,668",
        "216,146,977",
        "819,987,18",
        "117,168,530",
        "805,96,715",
        "346,949,466",
        "970,615,88",
        "941,993,340",
        "862,61,35",
        "984,92,344",
        "425,690,689",
    ]
    .iter()
    .map(|s| s.to_string())
    .collect()
}

fn boxes_at(places: &[(i64, i64, i64)]) -> PlaygroundDecoration {
    PlaygroundDecoration {
        junction_boxes: places
            .iter()
            .map(|p| JunctionBox(Location(p.0, p.1, p.2)))
            .collect(),
    }
}

#[test]
fn test_location_from_string() {
    assert_eq!(
        Location(162, 817, 812),
        Location::try_from(String::from("162,817,812")).unwrap()
    );
}

#[test]
fn test_junction_box_from_string() {
    assert_eq!(
        JunctionBox(Location(162, 817, 812)),
        JunctionBox::try_from(String::from("162,817,812")).unwrap()
    )
}

#[test]
fn test_playground_decoration_from_file_reader() {
    let playground_decoration = PlaygroundDecoration::try_from_lines(&sample_lines()).unwrap();

    assert_eq!(20, playground_decoration.junction_boxes.len());
    assert_eq!(
        JunctionBox(Location(162, 817, 812)),
        playground_decoration.junction_boxes[0]
    );
}

#[test]
fn test_calculate_circuits() {
    let playground_decoration = PlaygroundDecoration::try_from_lines(&sample_lines()).unwrap();

    assert_eq!(40, playground_decoration.calculate_circuits(10));
}

#[test]
fn test_join_all() {
    let playground_decoration = PlaygroundDecoration::try_from_lines(&sample_lines()).unwrap();

    assert_eq!(25272, playground_decoration.join_all());
}

#[test]
fn location_errors() {
    assert_eq!(
        Err(Error::InvalidInput),
        Location::try_from(String::from("1,2"))
    );
    assert_eq!(
        Err(Error::InvalidIntError(IntErrorKind::Empty)),
        Location::try_from(String::new())
    );
    assert_eq!(
        Err(Error::InvalidIntError(IntErrorKind::InvalidDigit)),
        Location::try_from(String::from("1,2,x"))
    );
    assert_eq!(
        Err(Error::InvalidIntError(IntErrorKind::InvalidDigit)),
        Location::try_from(String::from("1,2,3,x"))
    );
    assert_eq!(
        Ok(Location(-1, 2, 3)),
        Location::try_from(String::from("-1,+2,3"))
    );
    assert_eq!(
        Err(Error::InvalidInput),
        Location::try_from(String::from("1,2,3,4"))
    );
    assert_eq!(
        Err(Error::InvalidInput),
        JunctionBox::try_from(String::from("1"))
    );
}

#[test]
fn location_knows_its_coordinates() {
    let location = Location(1, -2, 3);
    assert_eq!(1, location.x());
    assert_eq!(-2, location.y());
    assert_eq!(3, location.z());
    assert_eq!(location, JunctionBox(location).location());
}

#[test]
fn distance_is_the_square_root_as_doubles_work_it_out() {
    let origin = Location(0, 0, 0);
    assert_eq!(5.0f64.to_bits(), origin.distance_from(Location(3, 4, 0)).bits());
    assert_eq!(0.0f64.to_bits(), origin.distance_from(origin).bits());
    assert_eq!(
        3.0f64.sqrt().to_bits(),
        origin.distance_from(Location(1, -1, 1)).bits()
    );
    let far = Location(3_037_000_499, 0, 0);
    assert_eq!(
        ((3_037_000_499i64 * 3_037_000_499i64) as f64).sqrt().to_bits(),
        origin.distance_from(far).bits()
    );
    assert_eq!(None, origin.checked_distance_from(Location(3_037_000_500, 0, 0)));
    assert_eq!(
        None,
        Location(i64::MIN, 0, 0).checked_distance_from(Location(i64::MAX, 0, 0))
    );
    assert_eq!(
        None,
        origin.checked_distance_from(Location(2_000_000_000, 2_000_000_000, 2_000_000_000))
    );
    assert_eq!(
        f64::sqrt(12e18).to_bits(),
        origin
            .checked_distance_from(Location(2_000_000_000, 2_000_000_000, -2_000_000_000))
            .map(|d| d.bits())
            .unwrap_or(0)
            .max(f64::sqrt(12e18).to_bits())
    );
}

fn next(seed: &mut u64) -> u64 {
    *seed ^= *seed << 13;
    *seed ^= *seed >> 7;
    *seed ^= *seed << 17;
    *seed
}

#[test]
fn square_roots_agree_with_the_machine() {
    let mut totals: Vec<i64> = (0..5000).collect();
    for k in 1..63 {
        for d in -3i64..=3 {
            totals.push((1i64 << k) + d);
        }
    }
    for side in [3i64, 1000, 1 << 26, (1 << 26) + 1, (1 << 31) - 1, 3_037_000_499] {
        for d in -1i64..=1 {
            totals.push(side * side + d);
        }
    }
    totals.push(i64::MAX);
    let mut seed: u64 = 0x9e3779b97f4a7c15;
    for _ in 0..200_000 {
        let bits = next(&mut seed) % 63 + 1;
        totals.push((next(&mut seed) >> (64 - bits)) as i64);
    }
    for total in totals {
        if total < 0 {
            continue;
        }
        assert_eq!(
            (total as f64).sqrt().to_bits(),
            Distance::of_square(total).bits(),
            "the square root of {}",
            total
        );
        assert_eq!(
            (total as f64) as u64,
            round_to_double(total as u64),
            "{} as a double",
            total
        );
    }
    assert_eq!(2.0f64.sqrt().to_bits(), root_to_double(2));
    assert_eq!(65536.0f64.to_bits(), root_to_double(1 << 32));
    assert_eq!(((1u64 << 63) as f64).sqrt().to_bits(), root_to_double(1 << 63));
    assert_eq!(
        (i64::MAX as f64).sqrt().to_bits(),
        root_to_double(round_to_double(i64::MAX as u64))
    );
}

#[test]
fn zeros_and_what_is_not_a_number_compare_equal() {
    let zero = Distance(0.0f64.to_bits());
    let negative_zero = Distance((-0.0f64).to_bits());
    assert!(zero == negative_zero);
    assert_eq!(zero.norm_bits(), negative_zero.norm_bits());
    let nan = Distance(f64::NAN.to_bits());
    let other_nan = Distance(0xfff0_0000_0000_0001);
    let third_nan = Distance(0x7fff_ffff_ffff_ffff);
    assert!(nan == other_nan);
    assert!(nan == third_nan);
    assert_eq!(0x7ff8_0000_0000_0000, other_nan.norm_bits());
    assert_eq!(0x7ff8_0000_0000_0000, third_nan.norm_bits());
    let one = Distance(1.0f64.to_bits());
    let infinity = Distance(f64::INFINITY.to_bits());
    let negative_infinity = Distance(f64::NEG_INFINITY.to_bits());
    assert!(one != zero);
    assert!(one != nan);
    assert!(infinity != nan);
    assert!(negative_infinity != nan);
    assert!(infinity != negative_infinity);
    assert_eq!(1.0f64.to_bits(), one.norm_bits());
    assert_eq!(f64::INFINITY.to_bits(), infinity.norm_bits());
    assert_eq!(f64::NEG_INFINITY.to_bits(), negative_infinity.norm_bits());
}

fn canonical(x: f64) -> f64 {
    if x == 0.0 {
        0.0
    } else if x.is_nan() {
        f64::from_bits(0x7ff8_0000_0000_0000)
    } else {
        x
    }
}

#[test]
fn distances_stand_in_the_total_order_of_canonical_doubles() {
    let values = [
        f64::NEG_INFINITY,
        -1.5,
        -f64::MIN_POSITIVE,
        -0.0,
        0.0,
        f64::MIN_POSITIVE,
        1.0,
        1.5,
        3.0f64.sqrt(),
        f64::MAX,
        f64::INFINITY,
        f64::NAN,
        -f64::NAN,
        f64::from_bits(0x7ff0_0000_0000_0001),
    ];
    for a in values {
        for b in values {
            let left = Distance(a.to_bits());
            let right = Distance(b.to_bits());
            let expected = canonical(a).total_cmp(&canonical(b));
            assert_eq!(expected, left.cmp(&right), "{} and {}", a, b);
            assert_eq!(Some(expected), left.partial_cmp(&right), "{} and {}", a, b);
            assert_eq!(
                expected,
                left.order_key().cmp(&right.order_key()),
                "{} and {}",
                a,
                b
            );
            assert_eq!(expected == Ordering::Equal, left == right, "{} and {}", a, b);
            assert_eq!(expected == Ordering::Less, left < right, "{} and {}", a, b);
        }
    }
}

#[test]
fn equal_distances_hash_alike() {
    let mut seen: HashSet<Distance> = HashSet::new();
    assert!(seen.insert(Distance(0.0f64.to_bits())));
    assert!(!seen.insert(Distance((-0.0f64).to_bits())));
    assert!(seen.insert(Distance(f64::NAN.to_bits())));
    assert!(!seen.insert(Distance(0xfff0_0000_0000_0001)));
    assert!(!seen.insert(Distance(0x7fff_ffff_ffff_ffff)));
    assert!(seen.insert(Distance(1.0f64.to_bits())));
    assert!(seen.insert(Distance((-1.0f64).to_bits())));
    assert!(!seen.insert(Distance(1.0f64.to_bits())));
    assert_eq!(4, seen.len());
}

#[test]
fn entries_come_by_ascending_key() {
    let mut map: BTreeMap<i64, (usize, usize)> = BTreeMap::new();
    map.insert(7, (0, 1));
    map.insert(-3, (0, 2));
    map.insert(5, (1, 2));
    map.insert(7, (2, 3));
    assert_eq!(
        vec![(-3, (0, 2)), (5, (1, 2)), (7, (2, 3))],
        ascending_entries(&map)
    );
}

#[test]
fn larger_circuits_come_first() {
    assert_eq!(Ordering::Less, larger_first(&(0, 5), &(1, 3)));
    assert_eq!(Ordering::Greater, larger_first(&(0, 3), &(1, 5)));
    assert_eq!(Ordering::Equal, larger_first(&(0, 3), &(1, 3)));
    assert_eq!(Some(1), leading(&vec![]));
    assert_eq!(Some(7), leading(&vec![(0, 7)]));
    assert_eq!(Some(14), leading(&vec![(0, 7), (1, 2)]));
    assert_eq!(Some(28), leading(&vec![(0, 7), (1, 2), (5, 2), (9, 1)]));
    assert_eq!(None, leading(&vec![(0, i64::MAX), (1, 2)]));
    assert_eq!(None, leading(&vec![(0, 1 << 31), (1, 1 << 31), (2, 2)]));
}

#[test]
fn circuits_of_a_line_of_boxes() {
    // the boxes stand at 0, 1, 4, 9, 15 and 22: no two pairs are equally far apart,
    // and the shortest wires are 0-1, 1-4, 0-4, 4-9, 9-15 and 15-22
    let decoration = boxes_at(&[
        (0, 0, 0),
        (1, 0, 0),
        (4, 0, 0),
        (9, 0, 0),
        (15, 0, 0),
        (22, 0, 0),
    ]);
    // one wire: circuits of 2, 1, 1, 1, 1
    assert_eq!(2, decoration.calculate_circuits(1));
    // no wire asked for: every box stays on its own
    assert_eq!(1, decoration.calculate_circuits(0));
    // the second wire joins 1 and 4: circuits of 3, 1, 1, 1
    assert_eq!(3, decoration.calculate_circuits(2));
    // the third wire joins 0 and 4, which are joined already; the wire counts
    assert_eq!(3, decoration.calculate_circuits(3));
    // the fourth joins 4 and 9: circuits of 4, 1, 1
    assert_eq!(4, decoration.calculate_circuits(4));
    // the fifth joins 9 and 15: circuits of 5 and 1
    assert_eq!(5, decoration.calculate_circuits(5));
    // more pairs than there are wires
    assert_eq!(6, decoration.calculate_circuits(1000));
    assert_eq!(Ok(6), decoration.checked_calculate_circuits(usize::MAX));
    assert_eq!(15 * 22, decoration.join_all());
}

#[test]
fn no_wire_is_laid_where_none_is_asked_for() {
    let decoration = boxes_at(&[(0, 0, 0), (1, 0, 0), (5, 0, 0)]);
    assert_eq!(1, decoration.calculate_circuits(0));
    assert_eq!(Ok(1), decoration.checked_calculate_circuits(0));
    assert_eq!(2, decoration.calculate_circuits(1));
    assert_eq!(3, decoration.calculate_circuits(2));
}

#[test]
fn three_largest_circuits_are_multiplied() {
    // pairs of boxes close together, the pairs far from each other
    let decoration = boxes_at(&[
        (0, 0, 0),
        (1, 0, 0),
        (100, 0, 0),
        (102, 0, 0),
        (300, 0, 0),
        (303, 0, 0),
        (700, 0, 0),
        (704, 0, 0),
        (1500, 0, 0),
    ]);
    assert_eq!(2 * 2 * 2, decoration.calculate_circuits(4));
    assert_eq!(2 * 2 * 1, decoration.calculate_circuits(2));
    assert_eq!(2 * 2 * 2, decoration.calculate_circuits(3));
    // the fifth wire joins the first two pairs: circuits of 4, 2, 2 and 1
    assert_eq!(4 * 2 * 2, decoration.calculate_circuits(5));
}

#[test]
fn largest_circuits_count_wherever_their_boxes_stand() {
    // the first box stays alone; the pairs behind it make the larger circuits
    let decoration = boxes_at(&[
        (1500, 0, 0),
        (0, 0, 0),
        (1, 0, 0),
        (100, 0, 0),
        (102, 0, 0),
        (300, 0, 0),
        (303, 0, 0),
    ]);
    assert_eq!(2 * 2 * 2, decoration.calculate_circuits(3));
    assert_eq!(2 * 2 * 1, decoration.calculate_circuits(2));
    // the fourth wire joins the first two pairs
    assert_eq!(4 * 2 * 1, decoration.calculate_circuits(4));
}

#[test]
fn wires_of_one_length_stand_for_each_other() {
    // a square: the four sides are equally long, and so are the two diagonals
    let decoration = boxes_at(&[(0, 0, 0), (2, 0, 0), (2, 2, 0), (0, 2, 0)]);
    // of the sides only the last one measured is laid, between the boxes 2 and 3
    assert_eq!(2, decoration.calculate_circuits(1));
    // then the last diagonal, between the boxes 1 and 3
    assert_eq!(3, decoration.calculate_circuits(2));
    assert_eq!(3, decoration.calculate_circuits(3));
    // the box 0 is never reached: the last wire that joined anything is 1 to 3
    assert_eq!(0, decoration.join_all());
    let shifted = boxes_at(&[(5, 0, 0), (7, 0, 0), (7, 2, 0), (5, 2, 0)]);
    assert_eq!(7 * 5, shifted.join_all());
}

#[test]
fn too_few_boxes() {
    let none = boxes_at(&[]);
    assert_eq!(Err(Error::InvalidInput), none.checked_calculate_circuits(10));
    assert_eq!(Err(Error::InvalidInput), none.checked_join_all());
    let one = boxes_at(&[(4, 5, 6)]);
    assert_eq!(Ok(1), one.checked_calculate_circuits(10));
    assert_eq!(1, one.calculate_circuits(10));
    assert_eq!(Err(Error::InvalidInput), one.checked_join_all());
    let two = boxes_at(&[(4, 5, 6), (-3, 0, 0)]);
    assert_eq!(Ok(2), two.checked_calculate_circuits(10));
    assert_eq!(Ok(-12), two.checked_join_all());
}

#[test]
fn boxes_too_far_apart_overflow() {
    let far = boxes_at(&[(0, 0, 0), (1, 0, 0), (4_000_000_000, 0, 0)]);
    assert_eq!(Err(Error::Overflow), far.checked_calculate_circuits(10));
    assert_eq!(Err(Error::Overflow), far.checked_join_all());
    assert_eq!(None, far.checked_wires().map(|w| w.len()));
    let wide = boxes_at(&[(3_000_000_000, 0, 0), (3_000_000_001, 0, 0), (3_000_000_003, 0, 0)]);
    assert_eq!(Ok(3), wide.checked_calculate_circuits(10));
    assert_eq!(Some(3), wide.checked_wires().map(|w| w.len()));
    // the last wire joins the boxes at 3000000001 and 3000000003
    assert_eq!(Ok(9_000_000_012_000_000_003), wide.checked_join_all());
    let wider = boxes_at(&[(3_100_000_000, 0, 0), (3_100_000_001, 0, 0), (3_100_000_003, 0, 0)]);
    assert_eq!(Err(Error::Overflow), wider.checked_join_all());
}

#[test]
fn both_parts_of_the_playground() {
    let answers = Day08Processor::default().process(&sample_lines());
    // a thousand wires are more than the sample has: all the boxes are in one circuit
    assert_eq!((Ok(20), Ok(25272)), answers);
    assert_eq!(Ok(20), Day08Processor::default().process_part1(&sample_lines()));
    assert_eq!(Ok(25272), Day08Processor::default().process_part2(&sample_lines()));
    let broken: Vec<String> = vec![String::from("1,2,3"), String::from("1,2")];
    assert_eq!(
        (Err(Error::InvalidInput), Err(Error::InvalidInput)),
        Day08Processor::default().process(&broken)
    );
}

#[test]
fn wires_that_join_and_circuits_make_up_the_boxes() {
    let decoration = PlaygroundDecoration::try_from_lines(&sample_lines()).unwrap();
    let n = decoration.junction_boxes.len();
    let wires = ascending_entries(&decoration.checked_wires().unwrap());
    // no two pairs of the boxes are equally far apart: every pair has its wire
    assert_eq!(n * (n - 1) / 2, wires.len());
    let mut set = disjoint::DisjointSet::with_len(n);
    let mut merges = 0;
    let mut last = (0, 1);
    for (laid, (_, (a, b))) in wires.iter().enumerate() {
        if laid == 10 {
            let mut sizes: Vec<usize> = set.sets().iter().map(|s| s.len()).collect();
            assert_eq!(n, sizes.iter().sum::<usize>());
            assert_eq!(n, merges + sizes.len());
            sizes.sort();
            sizes.reverse();
            assert_eq!(
                decoration.calculate_circuits(10),
                (sizes[0] * sizes[1] * sizes[2]) as i64
            );
        }
        if set.join(*a, *b) {
            merges += 1;
            last = (*a, *b);
        }
    }
    assert_eq!(n - 1, merges);
    assert_eq!(vec![n], set.sets().iter().map(|s| s.len()).collect::<Vec<usize>>());
    let first = decoration.junction_boxes[last.0].location().x();
    let second = decoration.junction_boxes[last.1].location().x();
    assert_eq!(first * second, decoration.join_all());
}

#[test]
fn the_same_boxes_come_to_the_same() {
    let decoration = PlaygroundDecoration::try_from_lines(&sample_lines()).unwrap();
    for num_pairs in 0..25 {
        assert_eq!(
            decoration.checked_calculate_circuits(num_pairs),
            decoration.checked_calculate_circuits(num_pairs)
        );
        assert_eq!(
            Ok(decoration.calculate_circuits(num_pairs)),
            decoration.checked_calculate_circuits(num_pairs)
        );
    }
    assert_eq!(decoration.checked_join_all(), decoration.checked_join_all());
    let far = boxes_at(&[(0, 0, 0), (1, 0, 0), (4_000_000_000, 0, 0)]);
    assert_eq!(far.checked_calculate_circuits(1), far.checked_calculate_circuits(1));
}
