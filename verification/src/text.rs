//! Text handling shared by every puzzle: the characters of a line, decimal
//! numbers, and splitting a line into fields.

use vstd::prelude::*;

verus! {

/// The characters of `s`, in order.
pub fn chars_of(s: &str) -> (v: Vec<char>)
    ensures
        v@ == s@,
{
    let mut v: Vec<char> = Vec::new();
    for c in it: s.chars()
        invariant
            v@ == it.seq().take(it.index() as int),
            it.seq() == s@,
    {
        v.push(c);
    }
    v
}

/// `String::push` of std appends one character to the string.
pub assume_specification[ String::push ](s: &mut String, c: char)
    ensures
        final(s)@ == old(s)@.push(c),
;

/// The string made of `chars`, in order.
pub fn string_of(chars: &Vec<char>) -> (s: String)
    ensures
        s@ == chars@,
{
    let mut s = String::new();
    let mut i: usize = 0;
    while i < chars.len()
        invariant
            i <= chars.len(),
            s@ == chars@.take(i as int),
        decreases chars.len() - i,
    {
        s.push(chars[i]);
        i += 1;
    }
    s
}

/// The views of a list of character vectors.
pub open spec fn views(pieces: Seq<Vec<char>>) -> Seq<Seq<char>> {
    Seq::new(pieces.len(), |i: int| pieces[i]@)
}

/// The views of a list of strings.
pub open spec fn line_views(lines: Seq<String>) -> Seq<Seq<char>> {
    Seq::new(lines.len(), |i: int| lines[i]@)
}

/// Why a piece of text is not a decimal number of the wanted type.
#[derive(Clone, Copy, Debug, PartialEq, Eq, Structural)]
pub enum IntErrorKind {
    /// The text is empty.
    Empty,
    /// A character is not a decimal digit, or a sign stands alone.
    InvalidDigit,
    /// The number is above the largest value of the type.
    PosOverflow,
    /// The number is below the smallest value of the type.
    NegOverflow,
}

/// `c` is one of the ten ASCII decimal digits.
pub open spec fn is_digit(c: char) -> bool {
    '0' <= c && c <= '9'
}

/// The value of the decimal digit `c`.
pub open spec fn digit_value(c: char) -> int {
    c as int - '0' as int
}

/// What one character more makes of a number that has been read up to
/// `acc`: the character has to be a digit, and the number has to stay within
/// `min ..= max`.
pub open spec fn scan_step(acc: int, c: char, negative: bool, min: int, max: int) -> Result<
    int,
    IntErrorKind,
> {
    if !is_digit(c) {
        Err(IntErrorKind::InvalidDigit)
    } else {
        let next = if negative {
            acc * 10 - digit_value(c)
        } else {
            acc * 10 + digit_value(c)
        };
        if next > max {
            Err(IntErrorKind::PosOverflow)
        } else if next < min {
            Err(IntErrorKind::NegOverflow)
        } else {
            Ok(next)
        }
    }
}

/// Reads the digits of `s` from the left onto `acc`. It stops at the first
/// character that is no digit, or at the first digit that takes the value out
/// of `min ..= max`, whichever comes first.
pub open spec fn scan_digits(s: Seq<char>, acc: int, negative: bool, min: int, max: int) -> Result<
    int,
    IntErrorKind,
>
    decreases s.len(),
{
    if s.len() == 0 {
        Ok(acc)
    } else {
        match scan_step(acc, s[0], negative, min, max) {
            Err(e) => Err(e),
            Ok(next) => scan_digits(s.skip(1), next, negative, min, max),
        }
    }
}

/// The number that the text `s` denotes in an integer type with the values
/// `min ..= max`: an optional sign (`-` only where the type has negative
/// values), then one or more decimal digits and nothing else.
pub open spec fn parse_int(s: Seq<char>, min: int, max: int) -> Result<int, IntErrorKind> {
    if s.len() == 0 {
        Err(IntErrorKind::Empty)
    } else if s.len() == 1 && (s[0] == '+' || s[0] == '-') {
        Err(IntErrorKind::InvalidDigit)
    } else if s[0] == '+' {
        scan_digits(s.skip(1), 0, false, min, max)
    } else if s[0] == '-' && min < 0 {
        scan_digits(s.skip(1), 0, true, min, max)
    } else {
        scan_digits(s, 0, false, min, max)
    }
}

/// The digit that `c` denotes, if it is one.
pub fn digit_of(c: char) -> (d: Option<u8>)
    ensures
        d is Some <==> is_digit(c),
        d matches Some(x) ==> x as int == digit_value(c) && x <= 9,
{
    if c >= '0' && c <= '9' {
        Some((c as u32 - '0' as u32) as u8)
    } else {
        None
    }
}

/// `r` holds the same outcome as `spec`, value for value.
pub open spec fn same_outcome(r: Result<i128, IntErrorKind>, spec: Result<int, IntErrorKind>) -> bool {
    match r {
        Ok(v) => spec == Ok::<int, IntErrorKind>(v as int),
        Err(e) => spec == Err::<int, IntErrorKind>(e),
    }
}

/// Parses `s` as a decimal number of a type with the values `min ..= max`.
pub fn parse_decimal(s: &Vec<char>, min: i128, max: i128) -> (r: Result<i128, IntErrorKind>)
    requires
        -0x1_0000_0000_0000_0000 <= min <= 0 <= max <= 0x1_0000_0000_0000_0000,
    ensures
        same_outcome(r, parse_int(s@, min as int, max as int)),
        r matches Ok(v) ==> min <= v <= max,
{
    let n = s.len();
    if n == 0 {
        return Err(IntErrorKind::Empty);
    }
    let first = s[0];
    if n == 1 && (first == '+' || first == '-') {
        return Err(IntErrorKind::InvalidDigit);
    }
    let negative = first == '-' && min < 0;
    let start: usize = if first == '+' || negative { 1 } else { 0 };
    let mut acc: i128 = 0;
    let mut i: usize = start;
    assert(s@.skip(0) == s@);
    while i < n
        invariant
            start <= i <= n,
            n == s.len(),
            min <= acc <= max,
            -0x1_0000_0000_0000_0000 <= min <= 0 <= max <= 0x1_0000_0000_0000_0000,
            parse_int(s@, min as int, max as int) == scan_digits(
                s@.skip(i as int),
                acc as int,
                negative,
                min as int,
                max as int,
            ),
        decreases n - i,
    {
        let ghost rest = s@.skip(i as int);
        assert(rest[0] == s@[i as int]);
        assert(rest.skip(1) == s@.skip(i + 1));
        let d = match digit_of(s[i]) {
            Some(d) => d,
            None => {
                return Err(IntErrorKind::InvalidDigit);
            },
        };
        let next: i128 = if negative {
            acc * 10 - d as i128
        } else {
            acc * 10 + d as i128
        };
        if next > max {
            return Err(IntErrorKind::PosOverflow);
        }
        if next < min {
            return Err(IntErrorKind::NegOverflow);
        }
        acc = next;
        i += 1;
    }
    Ok(acc)
}

/// The number that `s` denotes as an `i64`.
pub open spec fn parse_i64_spec(s: Seq<char>) -> Result<int, IntErrorKind> {
    parse_int(s, i64::MIN as int, i64::MAX as int)
}

/// The number that `s` denotes as an `i32`.
pub open spec fn parse_i32_spec(s: Seq<char>) -> Result<int, IntErrorKind> {
    parse_int(s, i32::MIN as int, i32::MAX as int)
}

/// The number that `s` denotes as an `i16`.
pub open spec fn parse_i16_spec(s: Seq<char>) -> Result<int, IntErrorKind> {
    parse_int(s, i16::MIN as int, i16::MAX as int)
}

/// The number that `s` denotes as an `i8`.
pub open spec fn parse_i8_spec(s: Seq<char>) -> Result<int, IntErrorKind> {
    parse_int(s, i8::MIN as int, i8::MAX as int)
}

/// The number that `s` denotes as a `usize`.
pub open spec fn parse_usize_spec(s: Seq<char>) -> Result<int, IntErrorKind> {
    parse_int(s, 0, usize::MAX as int)
}

/// Parses `s` as an `i64`.
pub fn parse_i64(s: &Vec<char>) -> (r: Result<i64, IntErrorKind>)
    ensures
        match r {
            Ok(v) => parse_i64_spec(s@) == Ok::<int, IntErrorKind>(v as int),
            Err(e) => parse_i64_spec(s@) == Err::<int, IntErrorKind>(e),
        },
{
    match parse_decimal(s, i64::MIN as i128, i64::MAX as i128) {
        Ok(v) => Ok(v as i64),
        Err(e) => Err(e),
    }
}

/// Parses `s` as an `i32`.
pub fn parse_i32(s: &Vec<char>) -> (r: Result<i32, IntErrorKind>)
    ensures
        match r {
            Ok(v) => parse_i32_spec(s@) == Ok::<int, IntErrorKind>(v as int),
            Err(e) => parse_i32_spec(s@) == Err::<int, IntErrorKind>(e),
        },
{
    match parse_decimal(s, i32::MIN as i128, i32::MAX as i128) {
        Ok(v) => Ok(v as i32),
        Err(e) => Err(e),
    }
}

/// Parses `s` as an `i16`.
pub fn parse_i16(s: &Vec<char>) -> (r: Result<i16, IntErrorKind>)
    ensures
        match r {
            Ok(v) => parse_i16_spec(s@) == Ok::<int, IntErrorKind>(v as int),
            Err(e) => parse_i16_spec(s@) == Err::<int, IntErrorKind>(e),
        },
{
    match parse_decimal(s, i16::MIN as i128, i16::MAX as i128) {
        Ok(v) => Ok(v as i16),
        Err(e) => Err(e),
    }
}

/// Parses `s` as an `i8`.
pub fn parse_i8(s: &Vec<char>) -> (r: Result<i8, IntErrorKind>)
    ensures
        match r {
            Ok(v) => parse_i8_spec(s@) == Ok::<int, IntErrorKind>(v as int),
            Err(e) => parse_i8_spec(s@) == Err::<int, IntErrorKind>(e),
        },
{
    match parse_decimal(s, i8::MIN as i128, i8::MAX as i128) {
        Ok(v) => Ok(v as i8),
        Err(e) => Err(e),
    }
}

/// Parses `s` as a `usize`.
pub fn parse_usize(s: &Vec<char>) -> (r: Result<usize, IntErrorKind>)
    ensures
        match r {
            Ok(v) => parse_usize_spec(s@) == Ok::<int, IntErrorKind>(v as int),
            Err(e) => parse_usize_spec(s@) == Err::<int, IntErrorKind>(e),
        },
{
    match parse_decimal(s, 0, usize::MAX as i128) {
        Ok(v) => Ok(v as usize),
        Err(e) => Err(e),
    }
}

/// The first position of `sep` in `s`, or the length of `s` if there is none.
pub open spec fn first_index(s: Seq<char>, sep: char) -> int
    decreases s.len(),
{
    if s.len() == 0 || s[0] == sep {
        0
    } else {
        1 + first_index(s.skip(1), sep)
    }
}

/// The pieces of `s` between the occurrences of `sep`: one more piece than
/// separators, empty pieces included.
pub open spec fn split(s: Seq<char>, sep: char) -> Seq<Seq<char>>
    decreases s.len(),
{
    let i = first_index(s, sep);
    if 0 <= i < s.len() {
        seq![s.take(i)] + split(s.skip(i + 1), sep)
    } else {
        seq![s]
    }
}

/// Where the first `k` characters are not `sep`, the first separator is not
/// before `k`; it is at `k` if `s[k]` is one, and there is none if `k` is the
/// length.
pub proof fn lemma_first_index(s: Seq<char>, sep: char, k: int)
    requires
        0 <= k <= s.len(),
        forall|j: int| 0 <= j < k ==> s[j] != sep,
    ensures
        k <= first_index(s, sep) <= s.len(),
        k < s.len() && s[k] == sep ==> first_index(s, sep) == k,
        k == s.len() ==> first_index(s, sep) == k,
    decreases k,
{
    if k > 0 {
        let t = s.skip(1);
        assert forall|j: int| 0 <= j < k - 1 implies t[j] != sep by {
            assert(t[j] == s[j + 1]);
        }
        lemma_first_index(t, sep, k - 1);
    } else {
        lemma_first_index_bound(s, sep);
    }
}

/// The first separator lies within the text or at its end.
pub proof fn lemma_first_index_bound(s: Seq<char>, sep: char)
    ensures
        0 <= first_index(s, sep) <= s.len(),
    decreases s.len(),
{
    if s.len() > 0 && s[0] != sep {
        lemma_first_index_bound(s.skip(1), sep);
    }
}

/// Splits `s` at every `sep`.
pub fn split_at_char(s: &Vec<char>, sep: char) -> (pieces: Vec<Vec<char>>)
    ensures
        views(pieces@) == split(s@, sep),
        pieces@.len() >= 1,
{
    let n: usize = s.len();
    let mut pieces: Vec<Vec<char>> = Vec::new();
    let mut current: Vec<char> = Vec::new();
    let mut start: usize = 0;
    let mut i: usize = 0;
    assert(s@.skip(0) == s@);
    assert(views(pieces@) + split(s@.skip(0), sep) == split(s@, sep));
    while i < n
        invariant
            start <= i <= n,
            n == s.len(),
            current@ == s@.subrange(start as int, i as int),
            forall|j: int| start <= j < i ==> s@[j] != sep,
            views(pieces@) + split(s@.skip(start as int), sep) == split(s@, sep),
        decreases n - i,
    {
        let c = s[i];
        let ghost rest = s@.skip(start as int);
        if c == sep {
            proof {
                assert forall|j: int| 0 <= j < i - start implies rest[j] != sep by {
                    assert(rest[j] == s@[start + j]);
                }
                lemma_first_index(rest, sep, i - start);
                assert(rest.take(i - start) == current@);
                assert(rest.skip(i - start + 1) == s@.skip(i + 1));
                assert(views(pieces@.push(current)) == views(pieces@) + seq![current@]);
            }
            pieces.push(current);
            current = Vec::new();
            start = i + 1;
        } else {
            current.push(c);
        }
        i += 1;
    }
    proof {
        let rest = s@.skip(start as int);
        assert forall|j: int| 0 <= j < n - start implies rest[j] != sep by {
            assert(rest[j] == s@[start + j]);
        }
        lemma_first_index(rest, sep, n - start);
        assert(rest == current@);
        assert(views(pieces@.push(current)) == views(pieces@) + seq![current@]);
    }
    pieces.push(current);
    pieces
}


/// Reads every item with `parse`, in order: all the results, or the error of
/// the first item that has one.
pub open spec fn collect_all<A, T, E>(items: Seq<A>, parse: spec_fn(A) -> Result<T, E>) -> Result<
    Seq<T>,
    E,
>
    decreases items.len(),
{
    if items.len() == 0 {
        Ok(Seq::empty())
    } else {
        match collect_all(items.drop_last(), parse) {
            Err(e) => Err(e),
            Ok(results) => match parse(items.last()) {
                Err(e) => Err(e),
                Ok(result) => Ok(results.push(result)),
            },
        }
    }
}

/// Reading one item more adds that item's result, or stops at its error.
pub proof fn lemma_collect_all_step<A, T, E>(
    items: Seq<A>,
    parse: spec_fn(A) -> Result<T, E>,
    i: int,
)
    requires
        0 <= i < items.len(),
    ensures
        collect_all(items.take(i + 1), parse) == match collect_all(items.take(i), parse) {
            Err(e) => Err::<Seq<T>, E>(e),
            Ok(results) => match parse(items[i]) {
                Err(e) => Err(e),
                Ok(result) => Ok(results.push(result)),
            },
        },
{
    assert(items.take(i + 1).drop_last() == items.take(i));
    assert(items.take(i + 1).last() == items[i]);
}

/// Once an item has an error, the items behind it do not change the outcome.
pub proof fn lemma_collect_all_error<A, T, E>(
    items: Seq<A>,
    parse: spec_fn(A) -> Result<T, E>,
    i: int,
)
    requires
        0 <= i <= items.len(),
        collect_all(items.take(i), parse) is Err,
    ensures
        collect_all(items, parse) == collect_all(items.take(i), parse),
    decreases items.len() - i,
{
    if i < items.len() {
        lemma_collect_all_step(items, parse, i);
        lemma_collect_all_error(items, parse, i + 1);
    } else {
        assert(items.take(i) == items);
    }
}

/// The character of the decimal digit `d`.
pub open spec fn digit_char(d: int) -> char {
    (d + '0' as int) as char
}

/// The decimal digits of `n`, the most significant first.
pub open spec fn digits_of(n: nat) -> Seq<char>
    decreases n,
{
    if n < 10 {
        seq![digit_char(n as int)]
    } else {
        digits_of(n / 10).push(digit_char((n % 10) as int))
    }
}

/// The text of `n` in decimal notation, with a minus sign where it is
/// negative.
pub open spec fn decimal(n: int) -> Seq<char> {
    if n < 0 {
        seq!['-'] + digits_of((-n) as nat)
    } else {
        digits_of(n as nat)
    }
}

/// The digits of a number are digits, and there is at least one.
pub proof fn lemma_digits_of(n: nat)
    ensures
        digits_of(n).len() >= 1,
        forall|i: int| 0 <= i < digits_of(n).len() ==> is_digit(#[trigger] digits_of(n)[i]),
    decreases n,
{
    if n >= 10 {
        lemma_digits_of(n / 10);
    }
}

/// Appends the decimal digits of `n` to `out`.
pub fn push_digits(n: u128, out: &mut Vec<char>)
    ensures
        final(out)@ == old(out)@ + digits_of(n as nat),
    decreases n,
{
    if n >= 10 {
        push_digits(n / 10, out);
    }
    let d: u8 = (n % 10) as u8;
    let c: char = (d + 48u8) as char;
    assert(c == digit_char((n % 10) as int));
    out.push(c);
    assert(final(out)@ == old(out)@ + digits_of(n as nat));
}

/// The text of `n` in decimal notation.
pub fn decimal_chars(n: i64) -> (v: Vec<char>)
    ensures
        v@ == decimal(n as int),
{
    let mut v: Vec<char> = Vec::new();
    if n < 0 {
        v.push('-');
        push_digits((-(n as i128)) as u128, &mut v);
    } else {
        push_digits(n as u128, &mut v);
    }
    v
}


/// The sum of the values, added up from the first on, unless a step leaves
/// `i64`.
pub open spec fn checked_sum(values: Seq<i64>) -> Option<int>
    decreases values.len(),
{
    if values.len() == 0 {
        Some(0)
    } else {
        match checked_sum(values.drop_last()) {
            None => None,
            Some(total) => if i64::MIN <= total + values.last() <= i64::MAX {
                Some(total + values.last())
            } else {
                None
            },
        }
    }
}

/// Once a step has left `i64`, the values behind it do not bring the sum back.
pub proof fn lemma_checked_sum_none(values: Seq<i64>, i: int)
    requires
        0 <= i <= values.len(),
        checked_sum(values.take(i)) is None,
    ensures
        checked_sum(values) is None,
    decreases values.len() - i,
{
    if i < values.len() {
        assert(values.take(i + 1).drop_last() == values.take(i));
        lemma_checked_sum_none(values, i + 1);
    } else {
        assert(values.take(i) == values);
    }
}

/// Adds up the values.
pub fn sum_i64(values: &Vec<i64>) -> (r: Option<i64>)
    ensures
        match r {
            Some(total) => checked_sum(values@) == Some(total as int),
            None => checked_sum(values@) is None,
        },
{
    let mut total: i64 = 0;
    let mut i: usize = 0;
    while i < values.len()
        invariant
            i <= values.len(),
            checked_sum(values@.take(i as int)) == Some(total as int),
        decreases values.len() - i,
    {
        assert(values@.take(i + 1).drop_last() == values@.take(i as int));
        total = match total.checked_add(values[i]) {
            Some(t) => t,
            None => {
                proof {
                    lemma_checked_sum_none(values@, i + 1);
                }
                return None;
            },
        };
        i += 1;
    }
    assert(values@.take(i as int) == values@);
    Some(total)
}


/// `c` is white space: one of the characters that Unicode marks as such.
pub open spec fn is_whitespace(c: char) -> bool {
    let n = c as u32;
    ||| 0x09 <= n <= 0x0d
    ||| n == 0x20
    ||| n == 0x85
    ||| n == 0xa0
    ||| n == 0x1680
    ||| 0x2000 <= n <= 0x200a
    ||| n == 0x2028
    ||| n == 0x2029
    ||| n == 0x202f
    ||| n == 0x205f
    ||| n == 0x3000
}

/// Whether `c` is white space.
pub fn char_is_whitespace(c: char) -> (b: bool)
    ensures
        b == is_whitespace(c),
{
    let n: u32 = c as u32;
    (0x09 <= n && n <= 0x0d) || n == 0x20 || n == 0x85 || n == 0xa0 || n == 0x1680 || (0x2000 <= n
        && n <= 0x200a) || n == 0x2028 || n == 0x2029 || n == 0x202f || n == 0x205f || n == 0x3000
}

/// The word `current`, if it has a character.
pub open spec fn finished_word(current: Seq<char>) -> Seq<Seq<char>> {
    if current.len() > 0 {
        seq![current]
    } else {
        Seq::empty()
    }
}

/// The words of `s` behind a word `current` that has been begun: a word ends
/// at white space or at the end of the text.
pub open spec fn words_from(s: Seq<char>, current: Seq<char>) -> Seq<Seq<char>>
    decreases s.len(),
{
    if s.len() == 0 {
        finished_word(current)
    } else if is_whitespace(s[0]) {
        finished_word(current) + words_from(s.skip(1), Seq::empty())
    } else {
        words_from(s.skip(1), current.push(s[0]))
    }
}

/// The words of `s`: its longest pieces without white space, in order.
pub open spec fn words(s: Seq<char>) -> Seq<Seq<char>> {
    words_from(s, Seq::empty())
}

/// Splits `s` into its words.
pub fn split_words(s: &Vec<char>) -> (pieces: Vec<Vec<char>>)
    ensures
        views(pieces@) == words(s@),
{
    let n: usize = s.len();
    let mut pieces: Vec<Vec<char>> = Vec::new();
    let mut current: Vec<char> = Vec::new();
    let mut i: usize = 0;
    assert(s@.skip(0) == s@);
    assert(views(pieces@) + words_from(s@.skip(0), current@) == words(s@));
    while i < n
        invariant
            i <= n,
            n == s.len(),
            views(pieces@) + words_from(s@.skip(i as int), current@) == words(s@),
        decreases n - i,
    {
        let c: char = s[i];
        proof {
            let rest = s@.skip(i as int);
            assert(rest[0] == c);
            assert(rest.skip(1) == s@.skip(i + 1));
        }
        let ghost rest = s@.skip(i as int);
        let ghost done = views(pieces@);
        let ghost word = current@;
        if char_is_whitespace(c) {
            let ghost tail = words_from(rest.skip(1), Seq::empty());
            assert(words_from(rest, word) == finished_word(word) + tail);
            if current.len() > 0 {
                assert(views(pieces@.push(current)) == done + seq![word]);
                pieces.push(current);
                current = Vec::new();
                assert(current@ == Seq::<char>::empty());
                assert(done + (seq![word] + tail) == (done + seq![word]) + tail);
            } else {
                assert(current@ == Seq::<char>::empty());
                assert(done + (Seq::<Seq<char>>::empty() + tail) == done + tail);
            }
        } else {
            current.push(c);
            assert(words_from(rest, word) == words_from(rest.skip(1), word.push(c)));
        }
        i += 1;
    }
    assert(s@.skip(n as int).len() == 0);
    if current.len() > 0 {
        assert(views(pieces@.push(current)) == views(pieces@) + seq![current@]);
        pieces.push(current);
    }
    pieces
}

/// `s` without the white space at its start.
pub open spec fn trim_start(s: Seq<char>) -> Seq<char>
    decreases s.len(),
{
    if s.len() > 0 && is_whitespace(s[0]) {
        trim_start(s.skip(1))
    } else {
        s
    }
}

/// `s` without the white space at its end.
pub open spec fn trim_end(s: Seq<char>) -> Seq<char>
    decreases s.len(),
{
    if s.len() > 0 && is_whitespace(s.last()) {
        trim_end(s.drop_last())
    } else {
        s
    }
}

/// `s` without the white space at its start and at its end.
pub open spec fn trim(s: Seq<char>) -> Seq<char> {
    trim_end(trim_start(s))
}

/// Takes the white space off both ends of `s`.
pub fn trimmed(s: &Vec<char>) -> (t: Vec<char>)
    ensures
        t@ == trim(s@),
{
    let n: usize = s.len();
    let mut start: usize = 0;
    assert(s@.skip(0) == s@);
    while start < n && char_is_whitespace(s[start])
        invariant
            start <= n,
            n == s.len(),
            trim_start(s@) == trim_start(s@.skip(start as int)),
        decreases n - start,
    {
        assert(s@.skip(start as int).skip(1) == s@.skip(start + 1));
        start += 1;
    }
    assert(trim_start(s@) == s@.skip(start as int)) by {
        if start < n {
            assert(s@.skip(start as int)[0] == s@[start as int]);
        }
    }
    let mut end: usize = n;
    assert(s@.subrange(start as int, n as int) == s@.skip(start as int));
    while end > start && char_is_whitespace(s[end - 1])
        invariant
            start <= end <= n,
            n == s.len(),
            trim(s@) == trim_end(s@.subrange(start as int, end as int)),
        decreases end,
    {
        assert(s@.subrange(start as int, end as int).drop_last() == s@.subrange(
            start as int,
            end - 1,
        ));
        assert(s@.subrange(start as int, end as int).last() == s@[end - 1]);
        end -= 1;
    }
    assert(trim(s@) == s@.subrange(start as int, end as int)) by {
        if end > start {
            assert(s@.subrange(start as int, end as int).last() == s@[end - 1]);
        }
    }
    let mut t: Vec<char> = Vec::new();
    let mut i: usize = start;
    while i < end
        invariant
            start <= i <= end <= n,
            n == s.len(),
            t@ == s@.subrange(start as int, i as int),
        decreases end - i,
    {
        t.push(s[i]);
        i += 1;
    }
    t
}


/// The pieces written one behind the other with `sep` between them.
pub open spec fn joined(pieces: Seq<Seq<char>>, sep: char) -> Seq<char>
    decreases pieces.len(),
{
    if pieces.len() == 0 {
        Seq::empty()
    } else if pieces.len() == 1 {
        pieces[0]
    } else {
        pieces[0] + seq![sep] + joined(pieces.skip(1), sep)
    }
}

/// To split a text is to undo the joining of its pieces: no piece holds the
/// separator, and the pieces joined with the separator give the text back.
pub proof fn lemma_split_joins_back(s: Seq<char>, sep: char)
    ensures
        split(s, sep).len() >= 1,
        forall|i: int, j: int|
            0 <= i < split(s, sep).len() && 0 <= j < split(s, sep)[i].len() ==> #[trigger] split(
                s,
                sep,
            )[i][j] != sep,
        joined(split(s, sep), sep) == s,
    decreases s.len(),
{
    let at = first_index(s, sep);
    lemma_first_index_bound(s, sep);
    lemma_first_index_is_first(s, sep);
    if at < s.len() {
        let head = s.take(at);
        let rest = s.skip(at + 1);
        lemma_split_joins_back(rest, sep);
        let pieces = split(s, sep);
        assert(pieces == seq![head] + split(rest, sep));
        assert(pieces.skip(1) == split(rest, sep));
        assert(pieces[0] == head);
        assert forall|i: int, j: int|
            0 <= i < pieces.len() && 0 <= j < pieces[i].len() implies #[trigger] pieces[i][j]
            != sep by {
            if i > 0 {
                assert(pieces[i] == split(rest, sep)[i - 1]);
                assert(split(rest, sep)[i - 1][j] != sep);
            } else {
                assert(head[j] == s[j]);
            }
        }
        assert(joined(pieces, sep) == head + seq![sep] + rest);
        assert(head + seq![sep] + rest =~= s);
    } else {
        assert(split(s, sep) == seq![s]);
    }
}

/// No separator stands before the place that `first_index` gives, and one
/// stands there unless the place is the end.
pub proof fn lemma_first_index_is_first(s: Seq<char>, sep: char)
    ensures
        forall|j: int| 0 <= j < first_index(s, sep) ==> s[j] != sep,
        first_index(s, sep) < s.len() ==> s[first_index(s, sep)] == sep,
    decreases s.len(),
{
    if s.len() > 0 && s[0] != sep {
        let rest = s.skip(1);
        lemma_first_index_is_first(rest, sep);
        lemma_first_index_bound(rest, sep);
        assert forall|j: int| 0 <= j < first_index(s, sep) implies s[j] != sep by {
            if j > 0 {
                assert(rest[j - 1] == s[j]);
            }
        }
        if first_index(s, sep) < s.len() {
            assert(rest[first_index(rest, sep)] == s[first_index(rest, sep) + 1]);
        }
    }
}

/// To read a text with one character more at its end is to read the text and
/// then the character.
pub proof fn lemma_scan_digits_push(
    s: Seq<char>,
    c: char,
    acc: int,
    negative: bool,
    min: int,
    max: int,
)
    ensures
        scan_digits(s.push(c), acc, negative, min, max) == match scan_digits(
            s,
            acc,
            negative,
            min,
            max,
        ) {
            Err(e) => Err::<int, IntErrorKind>(e),
            Ok(v) => scan_step(v, c, negative, min, max),
        },
    decreases s.len(),
{
    let t = s.push(c);
    assert(t.len() == s.len() + 1);
    if s.len() == 0 {
        assert(t[0] == c);
        assert(t.skip(1).len() == 0);
        assert(scan_digits(s, acc, negative, min, max) == Ok::<int, IntErrorKind>(acc));
        if is_digit(c) {
            let next = if negative {
                acc * 10 - digit_value(c)
            } else {
                acc * 10 + digit_value(c)
            };
            if min <= next <= max {
                assert(scan_digits(t.skip(1), next, negative, min, max) == Ok::<int, IntErrorKind>(
                    next,
                ));
            }
        }
    } else {
        assert(t[0] == s[0]);
        assert(t.skip(1) == s.skip(1).push(c));
        if is_digit(s[0]) {
            let next = if negative {
                acc * 10 - digit_value(s[0])
            } else {
                acc * 10 + digit_value(s[0])
            };
            if min <= next <= max {
                lemma_scan_digits_push(s.skip(1), c, next, negative, min, max);
                assert(scan_digits(t, acc, negative, min, max) == scan_digits(
                    t.skip(1),
                    next,
                    negative,
                    min,
                    max,
                ));
                assert(scan_digits(s, acc, negative, min, max) == scan_digits(
                    s.skip(1),
                    next,
                    negative,
                    min,
                    max,
                ));
            }
        }
    }
}

/// The digits of a number are read back as the number, or as the number
/// below zero where that is asked for.
pub proof fn lemma_digits_read_back(m: nat, negative: bool, min: int, max: int)
    requires
        min <= 0 <= max,
        if negative {
            min <= -m
        } else {
            m <= max
        },
    ensures
        scan_digits(digits_of(m), 0, negative, min, max) == Ok::<int, IntErrorKind>(
            if negative {
                -m
            } else {
                m as int
            },
        ),
    decreases m,
{
    let last = digit_char((m % 10) as int);
    assert(is_digit(last) && digit_value(last) == m % 10);
    if m < 10 {
        lemma_scan_digits_push(Seq::empty(), last, 0, negative, min, max);
        assert(Seq::<char>::empty().push(last) == digits_of(m));
    } else {
        lemma_digits_read_back(m / 10, negative, min, max);
        lemma_scan_digits_push(digits_of(m / 10), last, 0, negative, min, max);
        assert(digits_of(m) == digits_of(m / 10).push(last));
    }
}

/// A number in decimal notation is read back as itself by every type that
/// holds it.
pub proof fn lemma_decimal_parses_back(n: int, min: int, max: int)
    requires
        min <= 0 <= max,
        min <= n <= max,
    ensures
        parse_int(decimal(n), min, max) == Ok::<int, IntErrorKind>(n),
{
    let s = decimal(n);
    if n < 0 {
        let digits = digits_of((-n) as nat);
        lemma_digits_of((-n) as nat);
        lemma_digits_read_back((-n) as nat, true, min, max);
        assert(s.skip(1) == digits);
        assert(s[0] == '-');
    } else {
        lemma_digits_of(n as nat);
        lemma_digits_read_back(n as nat, false, min, max);
        assert(is_digit(s[0]));
        assert(s.skip(0) == s);
    }
}


/// The text is not empty and holds no white space.
pub open spec fn is_word(w: Seq<char>) -> bool {
    w.len() > 0 && forall|j: int| 0 <= j < w.len() ==> !is_whitespace(#[trigger] w[j])
}

/// The words behind a word that has been begun are words, if it is one as far
/// as it has come.
pub proof fn lemma_words_from_are_words(s: Seq<char>, current: Seq<char>)
    requires
        forall|j: int| 0 <= j < current.len() ==> !is_whitespace(#[trigger] current[j]),
    ensures
        forall|i: int|
            0 <= i < words_from(s, current).len() ==> is_word(#[trigger] words_from(s, current)[i]),
    decreases s.len(),
{
    if s.len() > 0 {
        if is_whitespace(s[0]) {
            lemma_words_from_are_words(s.skip(1), Seq::empty());
            let tail = words_from(s.skip(1), Seq::empty());
            let all = words_from(s, current);
            assert(all == finished_word(current) + tail);
            assert forall|i: int| 0 <= i < all.len() implies is_word(#[trigger] all[i]) by {
                if current.len() > 0 {
                    assert(finished_word(current) == seq![current]);
                    if i > 0 {
                        assert(all[i] == tail[i - 1]);
                        assert(is_word(tail[i - 1]));
                    } else {
                        assert(all[i] == current);
                    }
                } else {
                    assert(finished_word(current).len() == 0);
                    assert(all[i] == tail[i]);
                    assert(is_word(tail[i]));
                }
            }
        } else {
            let longer = current.push(s[0]);
            assert forall|j: int| 0 <= j < longer.len() implies !is_whitespace(
                #[trigger] longer[j],
            ) by {
                if j < current.len() {
                    assert(longer[j] == current[j]);
                }
            }
            lemma_words_from_are_words(s.skip(1), longer);
            assert(words_from(s, current) == words_from(s.skip(1), longer));
        }
    } else {
        let all = words_from(s, current);
        assert forall|i: int| 0 <= i < all.len() implies is_word(#[trigger] all[i]) by {
            assert(all[i] == current);
        }
    }
}

/// The words of a text are not empty and hold no white space.
pub proof fn lemma_words_are_words(s: Seq<char>)
    ensures
        forall|i: int| 0 <= i < words(s).len() ==> is_word(#[trigger] words(s)[i]),
{
    lemma_words_from_are_words(s, Seq::empty());
}


} // verus!
