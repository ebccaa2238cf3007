//! A worksheet of problems that stand side by side: the numbers of a problem
//! one below the other, and below them the sign that says whether to add or
//! to multiply them.

use crate::aoc_25::Error;
use crate::pattern::{find_all, found_view, regex_accepts, regex_find_all, Found};
use crate::text::{
    checked_sum, chars_of, collect_all, line_views, parse_i64, parse_i64_spec, split_words, sum_i64,
    trim, trimmed, views, words,
};
use std::ops::Range;
use vstd::prelude::*;
use vstd::string::StringSliceAdditionalSpecFns;

verus! {

/// The shape of a sign in the last line: the sign and the spaces behind it.
pub const OPERATIONS_RE: &'static str = "[\\\\*\\\\+] *";

/// What is done with the numbers of a problem.
#[derive(Clone, Copy, Debug, PartialEq, Eq, Structural)]
pub enum Operation {
    Add,
    Multiply,
}

/// The operation that a sign stands for: a plus sign adds, anything else
/// multiplies.
pub open spec fn operation_of(sign: Seq<char>) -> Operation {
    if sign == seq!['+'] {
        Operation::Add
    } else {
        Operation::Multiply
    }
}

impl Operation {
    /// The operation that the characters of a sign stand for.
    pub fn of_chars(sign: &Vec<char>) -> (r: Self)
        ensures
            r == operation_of(sign@),
    {
        if sign.len() == 1 && sign[0] == '+' {
            assert(sign@ == seq!['+']);
            Self::Add
        } else {
            assert(sign@ != seq!['+']) by {
                if sign@ == seq!['+'] {
                    assert(seq!['+'].len() == 1);
                    assert(seq!['+'][0] == '+');
                }
            }
            Self::Multiply
        }
    }

    /// The operation that a sign stands for.
    pub fn from(value: &str) -> (r: Self)
        ensures
            r == operation_of(value@),
    {
        let sign = chars_of(value);
        Self::of_chars(&sign)
    }
}

/// The input of the day: the lines of numbers, and the line of signs below
/// them.
#[derive(Debug, PartialEq)]
pub struct Day06Input {
    pub worksheet_lines: Vec<String>,
    pub operations: String,
}

impl Day06Input {
    /// Takes the last line as the line of signs. There has to be one.
    pub fn try_from_lines(lines: Vec<String>) -> (r: Result<Day06Input, Error>)
        ensures
            match r {
                Ok(input) => lines@.len() > 0 && input.worksheet_lines@ == lines@.drop_last()
                    && input.operations == lines@.last(),
                Err(e) => lines@.len() == 0 && e == Error::InvalidInput,
            },
    {
        let mut worksheet_lines: Vec<String> = lines;
        match worksheet_lines.pop() {
            Some(operations) => Ok(Self { worksheet_lines, operations }),
            None => Err(Error::InvalidInput),
        }
    }
}

/// The totals with which the problems start: 0 where numbers are added, 1
/// where they are multiplied.
pub open spec fn initial_totals(operations: Seq<Operation>) -> Seq<i64> {
    Seq::new(
        operations.len(),
        |i: int|
            match operations[i] {
                Operation::Add => 0i64,
                Operation::Multiply => 1i64,
            },
    )
}

/// The total of a problem after one more number, unless it leaves `i64`.
pub open spec fn applied(operation: Operation, total: i64, value: i64) -> Option<i64> {
    let next = match operation {
        Operation::Add => total + value,
        Operation::Multiply => total * value,
    };
    if i64::MIN <= next <= i64::MAX {
        Some(next as i64)
    } else {
        None
    }
}

/// The totals of the problems.
#[derive(Debug, PartialEq)]
pub struct PartOneAccumulator {
    pub column_totals: Vec<i64>,
}

impl PartOneAccumulator {
    /// The totals with which the problems start, by their operations.
    pub fn init(operations: &Vec<Operation>) -> (r: Self)
        ensures
            r.column_totals@ == initial_totals(operations@),
    {
        let mut column_totals: Vec<i64> = Vec::new();
        let mut i: usize = 0;
        while i < operations.len()
            invariant
                i <= operations.len(),
                column_totals@ == initial_totals(operations@).take(i as int),
            decreases operations.len() - i,
        {
            match operations[i] {
                Operation::Add => column_totals.push(0),
                Operation::Multiply => column_totals.push(1),
            }
            i += 1;
        }
        Self { column_totals }
    }

    /// Adds `value` to the total of a problem.
    pub fn add_value(&mut self, value: i64, column: usize)
        requires
            column < old(self).column_totals@.len(),
            applied(Operation::Add, old(self).column_totals@[column as int], value) is Some,
        ensures
            final(self).column_totals@ == old(self).column_totals@.update(
                column as int,
                (old(self).column_totals@[column as int] + value) as i64,
            ),
    {
        let next: i64 = self.column_totals[column] + value;
        self.column_totals.set(column, next);
    }

    /// Multiplies the total of a problem by `value`.
    pub fn multiply_value(&mut self, value: i64, column: usize)
        requires
            column < old(self).column_totals@.len(),
            applied(Operation::Multiply, old(self).column_totals@[column as int], value) is Some,
        ensures
            final(self).column_totals@ == old(self).column_totals@.update(
                column as int,
                (old(self).column_totals@[column as int] * value) as i64,
            ),
    {
        let next: i64 = self.column_totals[column] * value;
        self.column_totals.set(column, next);
    }

    /// The sum of the totals, unless it leaves `i64` on the way.
    pub fn checked_total(&self) -> (r: Option<i64>)
        ensures
            match r {
                Some(total) => checked_sum(self.column_totals@) == Some(total as int),
                None => checked_sum(self.column_totals@) is None,
            },
    {
        sum_i64(&self.column_totals)
    }

    /// The sum of the totals.
    pub fn total(&self) -> (r: i64)
        requires
            checked_sum(self.column_totals@) is Some,
        ensures
            checked_sum(self.column_totals@) == Some(r as int),
    {
        match self.checked_total() {
            Some(total) => total,
            None => 0,
        }
    }
}

/// The number that a word of a line denotes.
pub open spec fn value_of(word: Seq<char>) -> Result<i64, Error> {
    match parse_i64_spec(word) {
        Ok(v) => Ok(v as i64),
        Err(kind) => Err(Error::InvalidIntError(kind)),
    }
}

/// The numbers of a line: its words, each a number, or the error of the first
/// word that is none.
pub open spec fn line_values(line: Seq<char>) -> Result<Seq<i64>, Error> {
    collect_all(words(line), |word: Seq<char>| value_of(word))
}

/// The operations that the words of the last line stand for.
pub open spec fn line_operations(line: Seq<char>) -> Seq<Operation> {
    Seq::new(words(line).len(), |i: int| operation_of(words(line)[i]))
}

/// The totals after the first `k` problems have taken their number of one
/// line. A problem for which the line has no number stops the work, and so
/// does a total that leaves `i64`.
pub open spec fn totals_after_columns(
    totals: Seq<i64>,
    operations: Seq<Operation>,
    values: Seq<i64>,
    k: nat,
) -> Result<Seq<i64>, Error>
    decreases k,
{
    if k == 0 {
        Ok(totals)
    } else {
        match totals_after_columns(totals, operations, values, (k - 1) as nat) {
            Err(e) => Err(e),
            Ok(before) => if k - 1 >= values.len() {
                Err(Error::InvalidInput)
            } else {
                match applied(operations[k - 1], before[k - 1], values[k - 1]) {
                    None => Err(Error::Overflow),
                    Some(next) => Ok(before.update(k - 1, next)),
                }
            },
        }
    }
}

/// The totals after the first `k` lines of the worksheet.
pub open spec fn totals_after_lines(
    lines: Seq<Seq<char>>,
    operations: Seq<Operation>,
    k: nat,
) -> Result<Seq<i64>, Error>
    decreases k,
{
    if k == 0 {
        Ok(initial_totals(operations))
    } else {
        match totals_after_lines(lines, operations, (k - 1) as nat) {
            Err(e) => Err(e),
            Ok(before) => match line_values(lines[k - 1]) {
                Err(e) => Err(e),
                Ok(values) => totals_after_columns(before, operations, values, operations.len()),
            },
        }
    }
}

/// Once a problem has stopped the work, those behind it do not change the
/// outcome.
pub proof fn lemma_columns_error(
    totals: Seq<i64>,
    operations: Seq<Operation>,
    values: Seq<i64>,
    k: nat,
    n: nat,
)
    requires
        k <= n,
        totals_after_columns(totals, operations, values, k) is Err,
    ensures
        totals_after_columns(totals, operations, values, n) == totals_after_columns(
            totals,
            operations,
            values,
            k,
        ),
    decreases n - k,
{
    if k < n {
        lemma_columns_error(totals, operations, values, k, (n - 1) as nat);
    }
}

/// Once a line has stopped the work, those behind it do not change the
/// outcome.
pub proof fn lemma_lines_error(lines: Seq<Seq<char>>, operations: Seq<Operation>, k: nat, n: nat)
    requires
        k <= n,
        totals_after_lines(lines, operations, k) is Err,
    ensures
        totals_after_lines(lines, operations, n) == totals_after_lines(lines, operations, k),
    decreases n - k,
{
    if k < n {
        lemma_lines_error(lines, operations, k, (n - 1) as nat);
    }
}

/// The answer of part one.
#[derive(Clone, Copy, Debug, PartialEq, Eq, Structural)]
pub struct PartOneValue(pub i64);

impl PartOneValue {
    pub fn get(&self) -> (v: i64)
        ensures
            v == self.0,
    {
        self.0
    }

    /// The grand total of the worksheet where a problem has one number in
    /// each line: the totals of the problems, added up.
    pub open spec fn of_input(worksheet: Seq<Seq<char>>, signs: Seq<char>) -> Result<
        PartOneValue,
        Error,
    > {
        match totals_after_lines(worksheet, line_operations(signs), worksheet.len()) {
            Err(e) => Err(e),
            Ok(totals) => match checked_sum(totals) {
                Some(total) => Ok(PartOneValue(total as i64)),
                None => Err(Error::Overflow),
            },
        }
    }

    /// The grand total of the lines, the last of which holds the signs.
    pub open spec fn of_lines(lines: Seq<Seq<char>>) -> Result<PartOneValue, Error> {
        if lines.len() == 0 {
            Err(Error::InvalidInput)
        } else {
            Self::of_input(lines.drop_last(), lines.last())
        }
    }

    /// Works out the problems of the worksheet.
    pub fn try_from(value: Day06Input) -> (r: Result<PartOneValue, Error>)
        ensures
            r == Self::of_input(line_views(value.worksheet_lines@), value.operations@),
    {
        let ghost worksheet = line_views(value.worksheet_lines@);
        let sign_text = chars_of(value.operations.as_str());
        let signs = split_words(&sign_text);
        let mut operations: Vec<Operation> = Vec::new();
        let mut s: usize = 0;
        while s < signs.len()
            invariant
                s <= signs.len(),
                views(signs@) == words(value.operations@),
                operations@ == line_operations(value.operations@).take(s as int),
            decreases signs.len() - s,
        {
            assert(views(signs@)[s as int] == signs@[s as int]@);
            operations.push(Operation::of_chars(&signs[s]));
            s += 1;
        }
        assert(operations@ == line_operations(value.operations@));
        let ghost ops = operations@;
        let mut accumulator = PartOneAccumulator::init(&operations);
        let mut idx: usize = 0;
        while idx < value.worksheet_lines.len()
            invariant
                idx <= value.worksheet_lines.len(),
                worksheet == line_views(value.worksheet_lines@),
                ops == operations@,
                ops == line_operations(value.operations@),
                accumulator.column_totals@.len() == ops.len(),
                totals_after_lines(worksheet, ops, idx as nat) == Ok::<Seq<i64>, Error>(
                    accumulator.column_totals@,
                ),
            decreases value.worksheet_lines.len() - idx,
        {
            let ghost line = worksheet[idx as int];
            let line_text = chars_of(value.worksheet_lines[idx].as_str());
            assert(line_text@ == line);
            let fields = split_words(&line_text);
            let ghost parse = |word: Seq<char>| value_of(word);
            let mut vals: Vec<i64> = Vec::new();
            let mut f: usize = 0;
            while f < fields.len()
                invariant
                    f <= fields.len(),
                    views(fields@) == words(line),
                    parse == |word: Seq<char>| value_of(word),
                    collect_all(views(fields@).take(f as int), parse) == Ok::<Seq<i64>, Error>(
                        vals@,
                    ),
                    idx < value.worksheet_lines.len(),
                    worksheet == line_views(value.worksheet_lines@),
                    ops == line_operations(value.operations@),
                    line == worksheet[idx as int],
                    totals_after_lines(worksheet, ops, idx as nat) is Ok,
                decreases fields.len() - f,
            {
                proof {
                    crate::text::lemma_collect_all_step(views(fields@), parse, f as int);
                }
                match parse_i64(&fields[f]) {
                    Ok(v) => {
                        vals.push(v);
                    },
                    Err(kind) => {
                        proof {
                            crate::text::lemma_collect_all_error(views(fields@), parse, f + 1);
                            lemma_lines_error(
                                worksheet,
                                ops,
                                (idx + 1) as nat,
                                worksheet.len(),
                            );
                        }
                        return Err(Error::InvalidIntError(kind));
                    },
                }
                f += 1;
            }
            assert(views(fields@).take(f as int) == views(fields@));
            assert(line_values(line) == Ok::<Seq<i64>, Error>(vals@));
            let ghost before = accumulator.column_totals@;
            let mut column: usize = 0;
            while column < operations.len()
                invariant
                    column <= operations.len(),
                    ops == operations@,
                    accumulator.column_totals@.len() == ops.len(),
                    totals_after_columns(before, ops, vals@, column as nat) == Ok::<
                        Seq<i64>,
                        Error,
                    >(accumulator.column_totals@),
                    idx < value.worksheet_lines.len(),
                    worksheet == line_views(value.worksheet_lines@),
                    line == worksheet[idx as int],
                    line_values(line) == Ok::<Seq<i64>, Error>(vals@),
                    ops == line_operations(value.operations@),
                    before.len() == ops.len(),
                    totals_after_lines(worksheet, ops, idx as nat) == Ok::<Seq<i64>, Error>(
                        before,
                    ),
                decreases operations.len() - column,
            {
                if column >= vals.len() {
                    proof {
                        lemma_columns_error(before, ops, vals@, (column + 1) as nat, ops.len());
                        lemma_lines_error(worksheet, ops, (idx + 1) as nat, worksheet.len());
                    }
                    return Err(Error::InvalidInput);
                }
                let number: i64 = vals[column];
                let total: i64 = accumulator.column_totals[column];
                let fits: bool = match operations[column] {
                    Operation::Add => total.checked_add(number).is_some(),
                    Operation::Multiply => total.checked_mul(number).is_some(),
                };
                if !fits {
                    proof {
                        lemma_columns_error(before, ops, vals@, (column + 1) as nat, ops.len());
                        lemma_lines_error(worksheet, ops, (idx + 1) as nat, worksheet.len());
                    }
                    return Err(Error::Overflow);
                }
                match operations[column] {
                    Operation::Add => accumulator.add_value(number, column),
                    Operation::Multiply => accumulator.multiply_value(number, column),
                }
                column += 1;
            }
            idx += 1;
        }
        match accumulator.checked_total() {
            Some(total) => Ok(Self(total)),
            None => Err(Error::Overflow),
        }
    }

    /// Reads the lines and works out the problems.
    pub fn try_from_lines(lines: Vec<String>) -> (r: Result<PartOneValue, Error>)
        ensures
            r == Self::of_lines(line_views(lines@)),
    {
        let ghost texts = line_views(lines@);
        match Day06Input::try_from_lines(lines) {
            Ok(input) => {
                assert(line_views(input.worksheet_lines@) == texts.drop_last());
                Self::try_from(input)
            },
            Err(e) => Err(e),
        }
    }
}

/// A sign of the last line, with the columns of the worksheet that hold the
/// numbers of its problem.
#[derive(Debug, PartialEq)]
pub struct RangedOperation {
    pub operation: Operation,
    pub range: Range<usize>,
}

/// The operations with their first column and the column behind their last.
pub open spec fn ranged_views(operations: Seq<RangedOperation>) -> Seq<(Operation, int, int)> {
    Seq::new(
        operations.len(),
        |i: int|
            (operations[i].operation, operations[i].range.start as int, operations[i].range.end as int),
    )
}

/// The operations that the first `k` signs found in the last line stand for,
/// with their columns. The columns of a sign start where it was found and end
/// one before the place where what was found ends; those of the last sign run
/// to the end of the worksheet, which is `size` columns wide.
pub open spec fn ranged_after(found: Seq<(nat, nat, Seq<char>)>, size: nat, k: nat) -> Result<
    Seq<(Operation, int, int)>,
    Error,
>
    decreases k,
{
    if k == 0 {
        Ok(Seq::empty())
    } else {
        match ranged_after(found, size, (k - 1) as nat) {
            Err(e) => Err(e),
            Ok(before) => {
                let (start, end, sign) = found[k - 1];
                if k == found.len() {
                    Ok(before.push((operation_of(trim(sign)), start as int, size as int)))
                } else if end == 0 {
                    Err(Error::Overflow)
                } else {
                    Ok(before.push((operation_of(trim(sign)), start as int, end - 1)))
                }
            },
        }
    }
}

/// The characters that the lines hold in column `idx`, from the top down,
/// spaces left out.
pub open spec fn digits_at(lines: Seq<Seq<char>>, idx: int) -> Seq<char>
    decreases lines.len(),
{
    if lines.len() == 0 {
        Seq::empty()
    } else {
        let above = digits_at(lines.drop_last(), idx);
        if 0 <= idx < lines.last().len() && lines.last()[idx] != ' ' {
            above.push(lines.last()[idx])
        } else {
            above
        }
    }
}

/// The numbers that the columns from `start` up to `end` spell from the top
/// down, `end` left out, or the error of the first column that spells none.
pub open spec fn numbers_in(lines: Seq<Seq<char>>, start: int, end: int) -> Result<Seq<i64>, Error>
    decreases end - start,
{
    if end <= start {
        Ok(Seq::empty())
    } else {
        match numbers_in(lines, start, end - 1) {
            Err(e) => Err(e),
            Ok(before) => match value_of(digits_at(lines, end - 1)) {
                Err(e) => Err(e),
                Ok(number) => Ok(before.push(number)),
            },
        }
    }
}

/// The product of the numbers, multiplied from the first on, unless a step
/// leaves `i64`. There has to be a number.
pub open spec fn checked_product(numbers: Seq<i64>) -> Option<int>
    decreases numbers.len(),
{
    if numbers.len() <= 1 {
        Some(numbers[0] as int)
    } else {
        match checked_product(numbers.drop_last()) {
            None => None,
            Some(product) => if i64::MIN <= product * numbers.last() <= i64::MAX {
                Some(product * numbers.last())
            } else {
                None
            },
        }
    }
}

/// What a problem comes to: the sum of its numbers, or their product; a
/// product of no numbers is left out.
pub open spec fn column_of(operation: Operation, numbers: Seq<i64>) -> Result<Option<i64>, Error> {
    match operation {
        Operation::Add => match checked_sum(numbers) {
            Some(total) => Ok(Some(total as i64)),
            None => Err(Error::Overflow),
        },
        Operation::Multiply => if numbers.len() == 0 {
            Ok(None)
        } else {
            match checked_product(numbers) {
                Some(product) => Ok(Some(product as i64)),
                None => Err(Error::Overflow),
            }
        },
    }
}

/// What the first `k` problems come to.
pub open spec fn columns_after(
    lines: Seq<Seq<char>>,
    operations: Seq<(Operation, int, int)>,
    k: nat,
) -> Result<Seq<i64>, Error>
    decreases k,
{
    if k == 0 {
        Ok(Seq::empty())
    } else {
        match columns_after(lines, operations, (k - 1) as nat) {
            Err(e) => Err(e),
            Ok(before) => {
                let (operation, start, end) = operations[k - 1];
                match numbers_in(lines, start, end) {
                    Err(e) => Err(e),
                    Ok(numbers) => match column_of(operation, numbers) {
                        Err(e) => Err(e),
                        Ok(Some(column)) => Ok(before.push(column)),
                        Ok(None) => Ok(before),
                    },
                }
            },
        }
    }
}

/// Once a sign has stopped the work, those behind it do not change the
/// outcome.
pub proof fn lemma_ranged_error(found: Seq<(nat, nat, Seq<char>)>, size: nat, k: nat, n: nat)
    requires
        k <= n,
        ranged_after(found, size, k) is Err,
    ensures
        ranged_after(found, size, n) == ranged_after(found, size, k),
    decreases n - k,
{
    if k < n {
        lemma_ranged_error(found, size, k, (n - 1) as nat);
    }
}

/// Once a column has stopped the work, those behind it do not change the
/// outcome.
pub proof fn lemma_numbers_error(lines: Seq<Seq<char>>, start: int, k: int, n: int)
    requires
        k <= n,
        numbers_in(lines, start, k) is Err,
    ensures
        numbers_in(lines, start, n) == numbers_in(lines, start, k),
    decreases n - k,
{
    if k < n {
        lemma_numbers_error(lines, start, k, n - 1);
    }
}

/// Once a problem has stopped the work, those behind it do not change the
/// outcome.
pub proof fn lemma_problems_error(
    lines: Seq<Seq<char>>,
    operations: Seq<(Operation, int, int)>,
    k: nat,
    n: nat,
)
    requires
        k <= n,
        columns_after(lines, operations, k) is Err,
    ensures
        columns_after(lines, operations, n) == columns_after(lines, operations, k),
    decreases n - k,
{
    if k < n {
        lemma_problems_error(lines, operations, k, (n - 1) as nat);
    }
}

/// Once a step has left `i64`, the numbers behind it do not bring the product
/// back.
pub proof fn lemma_checked_product_none(numbers: Seq<i64>, i: int)
    requires
        1 <= i <= numbers.len(),
        checked_product(numbers.take(i)) is None,
    ensures
        checked_product(numbers) is None,
    decreases numbers.len() - i,
{
    if i < numbers.len() {
        assert(numbers.take(i + 1).drop_last() == numbers.take(i));
        lemma_checked_product_none(numbers, i + 1);
    } else {
        assert(numbers.take(i) == numbers);
    }
}

/// The product of the numbers, unless there is none or it leaves `i64` on the
/// way.
pub fn product_i64(numbers: &Vec<i64>) -> (r: Option<i64>)
    requires
        numbers@.len() >= 1,
    ensures
        match r {
            Some(product) => checked_product(numbers@) == Some(product as int),
            None => checked_product(numbers@) is None,
        },
{
    let mut product: i64 = numbers[0];
    let mut i: usize = 1;
    assert(numbers@.take(1)[0] == numbers@[0]);
    while i < numbers.len()
        invariant
            1 <= i <= numbers.len(),
            checked_product(numbers@.take(i as int)) == Some(product as int),
        decreases numbers.len() - i,
    {
        assert(numbers@.take(i + 1).drop_last() == numbers@.take(i as int));
        product = match product.checked_mul(numbers[i]) {
            Some(p) => p,
            None => {
                proof {
                    lemma_checked_product_none(numbers@, i + 1);
                }
                return None;
            },
        };
        i += 1;
    }
    assert(numbers@.take(i as int) == numbers@);
    Some(product)
}

/// The answer of part two.
#[derive(Clone, Copy, Debug, PartialEq, Eq, Structural)]
pub struct PartTwoValue(pub i64);

impl PartTwoValue {
    pub fn get(&self) -> (v: i64)
        ensures
            v == self.0,
    {
        self.0
    }

    /// The grand total of the worksheet where a number stands in one column,
    /// read from the top down, given the signs that were found in the last
    /// line.
    pub open spec fn of_found(worksheet: Seq<Seq<char>>, found: Seq<(nat, nat, Seq<char>)>) -> Result<
        PartTwoValue,
        Error,
    > {
        if worksheet.len() == 0 {
            Err(Error::InvalidInput)
        } else {
            let size = vstd::utf8::encode_utf8(worksheet[0]).len();
            match ranged_after(found, size, found.len()) {
                Err(e) => Err(e),
                Ok(operations) => match columns_after(worksheet, operations, operations.len()) {
                    Err(e) => Err(e),
                    Ok(columns) => match checked_sum(columns) {
                        Some(total) => Ok(PartTwoValue(total as i64)),
                        None => Err(Error::Overflow),
                    },
                },
            }
        }
    }

    /// The grand total of the worksheet where a number stands in one column.
    pub open spec fn of_input(worksheet: Seq<Seq<char>>, signs: Seq<char>) -> Result<
        PartTwoValue,
        Error,
    > {
        if worksheet.len() == 0 {
            Err(Error::InvalidInput)
        } else if !regex_accepts(OPERATIONS_RE@) {
            Err(Error::InvalidRegex)
        } else {
            Self::of_found(worksheet, regex_find_all(OPERATIONS_RE@, signs))
        }
    }

    /// The grand total of the lines, the last of which holds the signs.
    pub open spec fn of_lines(lines: Seq<Seq<char>>) -> Result<PartTwoValue, Error> {
        if lines.len() == 0 {
            Err(Error::InvalidInput)
        } else {
            Self::of_input(lines.drop_last(), lines.last())
        }
    }

    /// Works out the problems of the worksheet from the signs that were found
    /// in its last line.
    pub fn from_found(value: &Day06Input, matches: &Vec<Found>) -> (r: Result<PartTwoValue, Error>)
        ensures
            r == Self::of_found(line_views(value.worksheet_lines@), found_view(matches@)),
    {
        let ghost worksheet = line_views(value.worksheet_lines@);
        let ghost found = found_view(matches@);
        if value.worksheet_lines.len() == 0 {
            return Err(Error::InvalidInput);
        }
        let worksheet_size: usize = value.worksheet_lines[0].as_str().as_bytes().len();
        assert(value.worksheet_lines@[0]@ == worksheet[0]);
        let ghost size = vstd::utf8::encode_utf8(worksheet[0]).len();
        assert(worksheet_size == size);
        // the signs with the columns of their problems
        let num_matches: usize = matches.len();
        let mut operations: Vec<RangedOperation> = Vec::new();
        let mut idx: usize = 0;
        assert(ranged_views(operations@) == Seq::<(Operation, int, int)>::empty());
        while idx < num_matches
            invariant
                idx <= num_matches,
                num_matches == matches@.len(),
                found == found_view(matches@),
                worksheet_size == size,
                ranged_after(found, size, idx as nat) == Ok::<Seq<(Operation, int, int)>, Error>(
                    ranged_views(operations@),
                ),
                worksheet == line_views(value.worksheet_lines@),
                worksheet.len() > 0,
                size == vstd::utf8::encode_utf8(worksheet[0]).len(),
            decreases num_matches - idx,
        {
            let op_match: &Found = &matches[idx];
            assert(found[idx as int] == (op_match.start as nat, op_match.end as nat, op_match.text@));
            let end: usize = if idx == num_matches - 1 {
                worksheet_size
            } else {
                if op_match.end == 0 {
                    proof {
                        lemma_ranged_error(found, size, (idx + 1) as nat, found.len());
                    }
                    return Err(Error::Overflow);
                }
                op_match.end - 1
            };
            let range: Range<usize> = op_match.start..end;
            let sign = trimmed(&chars_of(op_match.text.as_str()));
            let operation = Operation::of_chars(&sign);
            let ranged = RangedOperation { operation, range };
            assert(ranged_views(operations@.push(ranged)) == ranged_views(operations@).push(
                (operation, op_match.start as int, end as int),
            ));
            operations.push(ranged);
            idx += 1;
        }
        let ghost ranged = ranged_views(operations@);
        let mut rows: Vec<Vec<char>> = Vec::new();
        let mut l: usize = 0;
        while l < value.worksheet_lines.len()
            invariant
                l <= value.worksheet_lines.len(),
                worksheet == line_views(value.worksheet_lines@),
                views(rows@) == worksheet.take(l as int),
            decreases value.worksheet_lines.len() - l,
        {
            let row = chars_of(value.worksheet_lines[l].as_str());
            assert(views(rows@.push(row)) == views(rows@).push(row@));
            assert(worksheet.take(l + 1) == worksheet.take(l as int).push(worksheet[l as int]));
            rows.push(row);
            l += 1;
        }
        assert(worksheet.take(l as int) == worksheet);
        let mut columns: Vec<i64> = Vec::new();
        let mut k: usize = 0;
        while k < operations.len()
            invariant
                k <= operations.len(),
                ranged == ranged_views(operations@),
                views(rows@) == worksheet,
                columns_after(worksheet, ranged, k as nat) == Ok::<Seq<i64>, Error>(columns@),
                worksheet == line_views(value.worksheet_lines@),
                worksheet.len() > 0,
                found == found_view(matches@),
                size == vstd::utf8::encode_utf8(worksheet[0]).len(),
                ranged_after(found, size, found.len()) == Ok::<Seq<(Operation, int, int)>, Error>(
                    ranged,
                ),
            decreases operations.len() - k,
        {
            let operation: &RangedOperation = &operations[k];
            let start: usize = operation.range.start;
            let end: usize = operation.range.end;
            assert(ranged[k as int] == (operation.operation, start as int, end as int));
            let mut nums: Vec<i64> = Vec::new();
            let mut idx: usize = start;
            while idx < end
                invariant
                    start <= idx,
                    idx <= end || idx == start,
                    views(rows@) == worksheet,
                    numbers_in(worksheet, start as int, idx as int) == Ok::<Seq<i64>, Error>(
                        nums@,
                    ),
                    k < operations.len(),
                    ranged == ranged_views(operations@),
                    ranged[k as int] == (operation.operation, start as int, end as int),
                    columns_after(worksheet, ranged, k as nat) is Ok,
                    worksheet == line_views(value.worksheet_lines@),
                    worksheet.len() > 0,
                    found == found_view(matches@),
                    size == vstd::utf8::encode_utf8(worksheet[0]).len(),
                    ranged_after(found, size, found.len()) == Ok::<
                        Seq<(Operation, int, int)>,
                        Error,
                    >(ranged),
                decreases end - idx,
            {
                let mut digits: Vec<char> = Vec::new();
                let mut line: usize = 0;
                while line < rows.len()
                    invariant
                        line <= rows.len(),
                        views(rows@) == worksheet,
                        digits@ == digits_at(worksheet.take(line as int), idx as int),
                    decreases rows.len() - line,
                {
                    assert(worksheet.take(line + 1).drop_last() == worksheet.take(line as int));
                    assert(worksheet.take(line + 1).last() == rows@[line as int]@);
                    if idx < rows[line].len() {
                        let this_digit: char = rows[line][idx];
                        if this_digit != ' ' {
                            digits.push(this_digit)
                        }
                    }
                    line += 1;
                }
                assert(worksheet.take(line as int) == worksheet);
                match parse_i64(&digits) {
                    Ok(number) => {
                        nums.push(number);
                    },
                    Err(kind) => {
                        proof {
                            lemma_numbers_error(worksheet, start as int, idx + 1, end as int);
                            lemma_problems_error(worksheet, ranged, (k + 1) as nat, ranged.len());
                        }
                        return Err(Error::InvalidIntError(kind));
                    },
                }
                idx += 1;
            }
            assert(numbers_in(worksheet, start as int, end as int) == Ok::<Seq<i64>, Error>(
                nums@,
            ));
            let this_column: Option<i64> = match operation.operation {
                Operation::Add => match sum_i64(&nums) {
                    Some(total) => Some(total),
                    None => {
                        proof {
                            lemma_problems_error(worksheet, ranged, (k + 1) as nat, ranged.len());
                        }
                        return Err(Error::Overflow);
                    },
                },
                Operation::Multiply => if nums.len() == 0 {
                    None
                } else {
                    match product_i64(&nums) {
                        Some(product) => Some(product),
                        None => {
                            proof {
                                lemma_problems_error(
                                    worksheet,
                                    ranged,
                                    (k + 1) as nat,
                                    ranged.len(),
                                );
                            }
                            return Err(Error::Overflow);
                        },
                    }
                },
            };
            if let Some(column) = this_column {
                columns.push(column)
            }
            k += 1;
        }
        match sum_i64(&columns) {
            Some(total) => Ok(PartTwoValue(total)),
            None => Err(Error::Overflow),
        }
    }

    /// Works out the problems of the worksheet.
    pub fn try_from(value: Day06Input) -> (r: Result<PartTwoValue, Error>)
        ensures
            r == Self::of_input(line_views(value.worksheet_lines@), value.operations@),
    {
        if value.worksheet_lines.len() == 0 {
            return Err(Error::InvalidInput);
        }
        match find_all(OPERATIONS_RE, value.operations.as_str()) {
            Ok(matches) => Self::from_found(&value, &matches),
            Err(_) => Err(Error::InvalidRegex),
        }
    }

    /// Reads the lines and works out the problems.
    pub fn try_from_lines(lines: Vec<String>) -> (r: Result<PartTwoValue, Error>)
        ensures
            r == Self::of_lines(line_views(lines@)),
    {
        let ghost texts = line_views(lines@);
        match Day06Input::try_from_lines(lines) {
            Ok(input) => {
                assert(line_views(input.worksheet_lines@) == texts.drop_last());
                Self::try_from(input)
            },
            Err(e) => Err(e),
        }
    }
}


/// The input of this day.
pub const DAY_06_FILE: &'static str = "./resources/aoc_25/day_06.txt";

/// A copy of the lines.
pub fn copy_lines(lines: &Vec<String>) -> (copy: Vec<String>)
    ensures
        copy@ == lines@,
{
    let mut copy: Vec<String> = Vec::new();
    let mut i: usize = 0;
    while i < lines.len()
        invariant
            i <= lines.len(),
            copy@ == lines@.take(i as int),
        decreases lines.len() - i,
    {
        copy.push(lines[i].clone());
        i += 1;
    }
    copy
}

/// The day: the file that holds its input, and the answers of both parts.
pub struct Day06Processor(pub String);

impl Day06Processor {
    pub fn new() -> (r: Self)
        ensures
            r.0@ == DAY_06_FILE@,
    {
        Self(DAY_06_FILE.to_owned())
    }

    /// The answers of both parts for the lines of the input.
    pub open spec fn answers(lines: Seq<Seq<char>>) -> (Result<i64, Error>, Result<i64, Error>) {
        (
            match PartOneValue::of_lines(lines) {
                Ok(v) => Ok(v.0),
                Err(e) => Err(e),
            },
            match PartTwoValue::of_lines(lines) {
                Ok(v) => Ok(v.0),
                Err(e) => Err(e),
            },
        )
    }

    /// Works out both parts for the lines of the input.
    pub fn process(&self, lines: &Vec<String>) -> (r: (Result<i64, Error>, Result<i64, Error>))
        ensures
            r == Self::answers(line_views(lines@)),
    {
        (self.process_part1(lines), self.process_part2(lines))
    }

    /// The answer of part one for the lines of the input.
    pub fn process_part1(&self, lines: &Vec<String>) -> (r: Result<i64, Error>)
        ensures
            r == Self::answers(line_views(lines@)).0,
    {
        match PartOneValue::try_from_lines(copy_lines(lines)) {
            Ok(p1_value) => Ok(p1_value.get()),
            Err(e) => Err(e),
        }
    }

    /// The answer of part two for the lines of the input.
    pub fn process_part2(&self, lines: &Vec<String>) -> (r: Result<i64, Error>)
        ensures
            r == Self::answers(line_views(lines@)).1,
    {
        match PartTwoValue::try_from_lines(copy_lines(lines)) {
            Ok(p2_value) => Ok(p2_value.get()),
            Err(e) => Err(e),
        }
    }
}

impl Default for Day06Processor {
    fn default() -> (r: Self)
        ensures
            r.0@ == DAY_06_FILE@,
    {
        Self::new()
    }
}


} // verus!
