use aoc::text::{
    char_is_whitespace, chars_of, decimal_chars, parse_i16, parse_i32, parse_i64, parse_i8,
    parse_usize, split_at_char, split_words, string_of, sum_i64, trimmed, IntErrorKind,
};
use std::num::IntErrorKind as StdKind;

fn chars(s: &str) -> Vec<char> {
    s.chars().collect()
}

fn kind_of(kind: &StdKind) -> IntErrorKind {
    match kind {
        StdKind::Empty => IntErrorKind::Empty,
        StdKind::InvalidDigit => IntErrorKind::InvalidDigit,
        StdKind::PosOverflow => IntErrorKind::PosOverflow,
        StdKind::NegOverflow => IntErrorKind::NegOverflow,
        _ => unreachable!(),
    }
}

const NUMBERS: [&str; 40] = [
    "", "+", "-", "0", "-0", "+0", "00", "7", "+7", "-7", "127", "128", "-128", "-129", "32767",
    "32768", "-32768", "-32769", "2147483647", "2147483648", "-2147483648", "-2147483649",
    "9223372036854775807", "9223372036854775808", "-9223372036854775808",
    "-9223372036854775809", "18446744073709551615", "18446744073709551616",
    "99999999999999999999999999999999999999999999", "-99999999999999999999999999999999999999",
    "12x", "x12", "1 2", " 12", "12 ", "1_000", "--1", "+-1", "99999999999999999999999x", "٣",
];

#[test]
fn numbers_are_read_as_the_standard_library_reads_them() {
    for text in NUMBERS {
        let c = chars(text);
        assert_eq!(
            text.parse::<i8>().map_err(|e| kind_of(e.kind())),
            parse_i8(&c),
            "{:?} as i8",
            text
        );
        assert_eq!(
            text.parse::<i16>().map_err(|e| kind_of(e.kind())),
            parse_i16(&c),
            "{:?} as i16",
            text
        );
        assert_eq!(
            text.parse::<i32>().map_err(|e| kind_of(e.kind())),
            parse_i32(&c),
            "{:?} as i32",
            text
        );
        assert_eq!(
            text.parse::<i64>().map_err(|e| kind_of(e.kind())),
            parse_i64(&c),
            "{:?} as i64",
            text
        );
        assert_eq!(
            text.parse::<usize>().map_err(|e| kind_of(e.kind())),
            parse_usize(&c),
            "{:?} as usize",
            text
        );
    }
}

#[test]
fn each_kind_of_number_error() {
    assert_eq!(Err(IntErrorKind::Empty), parse_i64(&chars("")));
    assert_eq!(Err(IntErrorKind::InvalidDigit), parse_i64(&chars("-")));
    assert_eq!(Err(IntErrorKind::InvalidDigit), parse_usize(&chars("-1")));
    assert_eq!(Err(IntErrorKind::PosOverflow), parse_i8(&chars("128")));
    assert_eq!(Err(IntErrorKind::NegOverflow), parse_i8(&chars("-129")));
    assert_eq!(Ok(-128), parse_i8(&chars("-128")));
}

#[test]
fn white_space_is_what_the_standard_library_takes_for_it() {
    for code in 0..=0x10ffffu32 {
        if let Some(c) = char::from_u32(code) {
            assert_eq!(c.is_whitespace(), char_is_whitespace(c), "U+{:04X}", code);
        }
    }
}

#[test]
fn lines_are_split_as_the_standard_library_splits_them() {
    for text in ["", ",", "a", "a,b", ",a,,b,", "7,1", "1,2,3", ",,"] {
        let expected: Vec<Vec<char>> = text.split(',').map(chars).collect();
        assert_eq!(expected, split_at_char(&chars(text), ','), "{:?}", text);
    }
    assert_eq!(
        vec![chars("7"), chars(""), chars("6")],
        split_at_char(&chars("7  6"), ' ')
    );
}

#[test]
fn words_are_split_as_the_standard_library_splits_them() {
    for text in [
        "",
        " ",
        "a",
        " a ",
        "123 328  51 64 ",
        "*   +   *   + ",
        "\ta\u{a0}b\u{3000}c\n",
        "  6 98  215 314",
    ] {
        let expected: Vec<Vec<char>> = text.split_whitespace().map(chars).collect();
        assert_eq!(expected, split_words(&chars(text)), "{:?}", text);
    }
}

#[test]
fn text_is_trimmed_as_the_standard_library_trims_it() {
    for text in ["", " ", "  ", "+", "+   ", "  * ", " a b ", "\t\u{2003}x\u{85}"] {
        assert_eq!(chars(text.trim()), trimmed(&chars(text)), "{:?}", text);
    }
}

#[test]
fn numbers_are_written_as_the_standard_library_writes_them() {
    for n in [
        0i64,
        1,
        9,
        10,
        99,
        100,
        1010,
        -1,
        -10,
        1188511885,
        i64::MAX,
        i64::MIN,
        i64::MIN + 1,
    ] {
        assert_eq!(chars(&n.to_string()), decimal_chars(n), "{}", n);
    }
}

#[test]
fn characters_and_strings_turn_into_each_other() {
    for text in ["", "abc", "äöü", "12-34", "日本語"] {
        assert_eq!(chars(text), chars_of(text));
        assert_eq!(text, string_of(&chars(text)));
    }
}

#[test]
fn sums_stop_where_they_leave_the_type() {
    assert_eq!(Some(0), sum_i64(&vec![]));
    assert_eq!(Some(6), sum_i64(&vec![1, 2, 3]));
    assert_eq!(Some(i64::MAX), sum_i64(&vec![i64::MAX - 1, 1]));
    assert_eq!(None, sum_i64(&vec![i64::MAX, 1]));
    assert_eq!(None, sum_i64(&vec![i64::MAX, 1, -1]));
    assert_eq!(None, sum_i64(&vec![i64::MIN, -1]));
    assert_eq!(Some(-1), sum_i64(&vec![i64::MIN, i64::MAX]));
}
