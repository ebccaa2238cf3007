//! Banks of batteries, each with a digit for its joltage: the largest number
//! that two of them, or twelve of them, spell in the order in which they stand.

use crate::aoc_25::Error;
use crate::text::{
    checked_sum, chars_of, collect_all, decimal, decimal_chars, line_views, parse_i64,
    parse_i64_spec, parse_i8, parse_i8_spec, sum_i64,
};
use vstd::prelude::*;

verus! {

/// The joltage that one character of a line denotes.
pub open spec fn battery_of(c: char) -> Result<i8, Error> {
    match parse_i8_spec(seq![c]) {
        Ok(v) => Ok(v as i8),
        Err(kind) => Err(Error::InvalidIntError(kind)),
    }
}

/// The two batteries that are chosen among the first `k` of the bank: the
/// first is the largest seen that is not the last of the bank, and the second
/// is the largest seen behind it. Both count as 0 until a larger one is seen.
pub open spec fn picked(bank: Seq<i8>, k: nat) -> (i8, i8)
    decreases k,
{
    if k == 0 {
        (0i8, 0i8)
    } else {
        let (first, second) = picked(bank, (k - 1) as nat);
        let battery = bank[k - 1];
        if battery > first && k < bank.len() {
            (battery, 0i8)
        } else if battery > second {
            (first, battery)
        } else {
            (first, second)
        }
    }
}

/// The number that the two batteries spell when their joltages are written
/// one behind the other, or 0 where that is no number that an `i8` holds.
pub open spec fn joltage_of_pair(first: i8, second: i8) -> i8 {
    match parse_i8_spec(decimal(first as int) + decimal(second as int)) {
        Ok(v) => v as i8,
        Err(_) => 0i8,
    }
}

/// The joltage of the bank with two batteries switched on.
pub open spec fn max_joltage_of(bank: Seq<i8>) -> i8 {
    let (first, second) = picked(bank, bank.len());
    joltage_of_pair(first, second)
}

/// The first place from `from` on at which the kept joltage is smaller than
/// `value` while enough batteries remain to fill all the places behind it; the
/// number of kept places if there is none.
pub open spec fn first_weaker(kept: Seq<i8>, value: i8, remaining: int, size: int, from: int) -> int
    decreases kept.len() - from,
{
    if from < 0 || from >= kept.len() {
        kept.len() as int
    } else if value > kept[from] && remaining >= size - (from + 1) {
        from
    } else {
        first_weaker(kept, value, remaining, size, from + 1)
    }
}

/// The kept joltages after a battery of joltage `value` has been seen, with
/// `remaining` batteries still to come: it takes the first place at which it
/// is an improvement, and the places behind are given up; if there is no such
/// place it is added at the end, as long as fewer than `size` are kept.
pub open spec fn adjusted(kept: Seq<i8>, value: i8, remaining: int, size: int) -> Seq<i8> {
    let place = first_weaker(kept, value, remaining, size, 0);
    if place < kept.len() {
        kept.take(place).push(value)
    } else if kept.len() < size {
        kept.push(value)
    } else {
        kept
    }
}

/// The joltages written one behind the other.
pub open spec fn concat_decimals(joltages: Seq<i8>) -> Seq<char>
    decreases joltages.len(),
{
    if joltages.len() == 0 {
        Seq::empty()
    } else {
        concat_decimals(joltages.drop_last()) + decimal(joltages.last() as int)
    }
}

/// The number that the joltages spell, or 0 where they spell none that an
/// `i64` holds.
pub open spec fn joltage_of(joltages: Seq<i8>) -> i64 {
    match parse_i64_spec(concat_decimals(joltages)) {
        Ok(v) => v as i64,
        Err(_) => 0i64,
    }
}

/// The joltages that are kept after the first `k` batteries of the bank,
/// where `size` are wanted in the end.
pub open spec fn tracked_after(bank: Seq<i8>, size: int, k: nat) -> Seq<i8>
    decreases k,
{
    if k == 0 {
        Seq::empty()
    } else {
        adjusted(tracked_after(bank, size, (k - 1) as nat), bank[k - 1], bank.len() - k, size)
    }
}

/// The joltage of the bank with twelve batteries switched on.
pub open spec fn overridden_joltage_of(bank: Seq<i8>) -> i64 {
    joltage_of(tracked_after(bank, 12, bank.len()))
}

/// No more joltages are kept than are wanted, nor more than batteries were
/// seen.
pub proof fn lemma_tracked_after_len(bank: Seq<i8>, size: int, k: nat)
    requires
        0 <= size,
    ensures
        tracked_after(bank, size, k).len() <= size,
        tracked_after(bank, size, k).len() <= k,
    decreases k,
{
    if k > 0 {
        let before = tracked_after(bank, size, (k - 1) as nat);
        lemma_tracked_after_len(bank, size, (k - 1) as nat);
        lemma_first_weaker_bounds(before, bank[k - 1], bank.len() - k, size, 0);
    }
}

/// The place that `first_weaker` finds lies between `from` and the end, and it
/// is the first of its kind.
pub proof fn lemma_first_weaker_bounds(kept: Seq<i8>, value: i8, remaining: int, size: int, from: int)
    requires
        0 <= from <= kept.len(),
    ensures
        from <= first_weaker(kept, value, remaining, size, from) <= kept.len(),
        first_weaker(kept, value, remaining, size, from) < kept.len() ==> {
            let place = first_weaker(kept, value, remaining, size, from);
            value > kept[place] && remaining >= size - (place + 1)
        },
        forall|j: int|
            from <= j < first_weaker(kept, value, remaining, size, from) ==> !(value
                > #[trigger] kept[j] && remaining >= size - (j + 1)),
    decreases kept.len() - from,
{
    if from < kept.len() && !(value > kept[from] && remaining >= size - (from + 1)) {
        lemma_first_weaker_bounds(kept, value, remaining, size, from + 1);
    }
}

/// One line of the input: the joltages of the batteries of a bank.
#[derive(Debug, PartialEq)]
pub struct BatteryBank(pub Vec<i8>);

impl BatteryBank {
    /// The bank that a line describes: one battery for each character, or the
    /// error of the first character that is no digit.
    pub open spec fn parse(line: Seq<char>) -> Result<Seq<i8>, Error> {
        collect_all(line, |c: char| battery_of(c))
    }

    /// The joltage of the bank with two batteries switched on. In a bank of
    /// digits with two batteries or more that is the largest number that two
    /// of its batteries spell, the first of them standing before the second.
    pub fn max_joltage(&self) -> (r: i8)
        ensures
            r == max_joltage_of(self.0@),
            is_digit_bank(self.0@) && self.0@.len() >= 2 ==> is_best_pair(self.0@, r as int),
    {
        proof {
            if is_digit_bank(self.0@) && self.0@.len() >= 2 {
                lemma_max_joltage_is_best_pair(self.0@);
            }
        }
        let mut battery_counter: usize = 0;
        let mut first_battery: i8 = 0i8;
        let mut second_battery: i8 = 0i8;
        let num_batteries: usize = self.0.len();
        while battery_counter < num_batteries
            invariant
                battery_counter <= num_batteries,
                num_batteries == self.0@.len(),
                (first_battery, second_battery) == picked(self.0@, battery_counter as nat),
            decreases num_batteries - battery_counter,
        {
            let battery: i8 = self.0[battery_counter];
            battery_counter += 1;
            if battery > first_battery && battery_counter < num_batteries {
                first_battery = battery;
                second_battery = 0;
                continue ;
            }
            if battery > second_battery {
                second_battery = battery
            }
        }
        let mut text: Vec<char> = decimal_chars(first_battery as i64);
        let mut second_text: Vec<char> = decimal_chars(second_battery as i64);
        text.append(&mut second_text);
        match parse_i8(&text) {
            Ok(joltage) => joltage,
            // the two joltages do not spell a number of the type
            Err(_) => 0,
        }
    }

    /// The joltage of the bank with twelve batteries switched on.
    pub fn overridden_joltage(&self) -> (r: i64)
        requires
            self.0@.len() <= i8::MAX,
        ensures
            r == overridden_joltage_of(self.0@),
    {
        let n: usize = self.0.len();
        let mut tracker = JoltageTracker::new(12, n as i8);
        let mut battery_position: i8 = 0;
        while (battery_position as usize) < n
            invariant
                0 <= battery_position <= n,
                n == self.0@.len(),
                n <= i8::MAX,
                tracker.joltage_size == 12,
                tracker.possible_batteries == n,
                tracker.tracked_joltage@ == tracked_after(self.0@, 12, battery_position as nat),
            decreases n - battery_position,
        {
            proof {
                lemma_tracked_after_len(self.0@, 12, battery_position as nat);
            }
            let battery_value: i8 = self.0[battery_position as usize];
            battery_position += 1;
            tracker.adjust_joltage(battery_value, battery_position);
        }
        tracker.joltage()
    }

    /// Reads one line of the input.
    pub fn try_from(value: String) -> (r: Result<BatteryBank, Error>)
        ensures
            match r {
                Ok(bank) => Self::parse(value@) == Ok::<Seq<i8>, Error>(bank.0@),
                Err(e) => Self::parse(value@) == Err::<Seq<i8>, Error>(e),
            },
    {
        let text = chars_of(value.as_str());
        let ghost parse = |c: char| battery_of(c);
        let mut batteries: Vec<i8> = Vec::new();
        let mut i: usize = 0;
        while i < text.len()
            invariant
                i <= text.len(),
                text@ == value@,
                parse == |c: char| battery_of(c),
                collect_all(text@.take(i as int), parse) == Ok::<Seq<i8>, Error>(batteries@),
            decreases text.len() - i,
        {
            proof {
                crate::text::lemma_collect_all_step(text@, parse, i as int);
            }
            let mut one: Vec<char> = Vec::new();
            one.push(text[i]);
            assert(one@ == seq![text@[i as int]]);
            match parse_i8(&one) {
                Ok(v) => {
                    batteries.push(v);
                },
                Err(kind) => {
                    proof {
                        crate::text::lemma_collect_all_error(text@, parse, i + 1);
                    }
                    return Err(Error::InvalidIntError(kind));
                },
            }
            i += 1;
        }
        assert(text@.take(i as int) == text@);
        Ok(Self(batteries))
    }
}

/// Keeps the best joltages seen so far while the batteries of a bank pass by.
#[derive(Debug, PartialEq)]
pub struct JoltageTracker {
    pub tracked_joltage: Vec<i8>,
    pub joltage_size: i8,
    pub possible_batteries: i8,
}

impl JoltageTracker {
    pub fn new(joltage_size: i8, possible_batteries: i8) -> (r: Self)
        ensures
            r.tracked_joltage@ == Seq::<i8>::empty(),
            r.joltage_size == joltage_size,
            r.possible_batteries == possible_batteries,
    {
        Self { tracked_joltage: Vec::new(), joltage_size, possible_batteries }
    }

    /// Takes note of the battery at `battery_position`, counted from 1.
    pub fn adjust_joltage(&mut self, battery_value: i8, battery_position: i8)
        requires
            0 <= old(self).joltage_size,
            old(self).tracked_joltage@.len() <= i8::MAX,
            i8::MIN <= old(self).possible_batteries - battery_position <= i8::MAX,
        ensures
            final(self).joltage_size == old(self).joltage_size,
            final(self).possible_batteries == old(self).possible_batteries,
            final(self).tracked_joltage@ == adjusted(
                old(self).tracked_joltage@,
                battery_value,
                old(self).possible_batteries - battery_position,
                old(self).joltage_size as int,
            ),
    {
        let mut joltage_position: usize = 0;
        let remaining_batteries: i8 = self.possible_batteries - battery_position;
        let ghost kept = self.tracked_joltage@;
        let ghost size = self.joltage_size as int;
        let n: usize = self.tracked_joltage.len();
        while joltage_position < n
            invariant
                joltage_position <= n,
                n == kept.len(),
                n <= i8::MAX,
                0 <= size == self.joltage_size,
                kept == self.tracked_joltage@,
                self.joltage_size == old(self).joltage_size,
                self.possible_batteries == old(self).possible_batteries,
                kept == old(self).tracked_joltage@,
                remaining_batteries == old(self).possible_batteries - battery_position,
                first_weaker(kept, battery_value, remaining_batteries as int, size, 0)
                    == first_weaker(
                    kept,
                    battery_value,
                    remaining_batteries as int,
                    size,
                    joltage_position as int,
                ),
            decreases n - joltage_position,
        {
            let jolt: i8 = self.tracked_joltage[joltage_position];
            joltage_position += 1;
            if battery_value > jolt && remaining_batteries >= self.joltage_size
                - joltage_position as i8 {
                assert(first_weaker(
                    kept,
                    battery_value,
                    remaining_batteries as int,
                    size,
                    joltage_position - 1,
                ) == joltage_position - 1);
                self.tracked_joltage.set(joltage_position - 1, battery_value);
                self.tracked_joltage.truncate(joltage_position);
                assert(self.tracked_joltage@ == kept.take(joltage_position - 1).push(
                    battery_value,
                ));
                return ;
            }
        }
        if joltage_position < self.joltage_size as usize {
            self.tracked_joltage.push(battery_value);
        }
    }

    /// The number that the kept joltages spell.
    pub fn joltage(&self) -> (r: i64)
        ensures
            r == joltage_of(self.tracked_joltage@),
    {
        let mut text: Vec<char> = Vec::new();
        let mut i: usize = 0;
        while i < self.tracked_joltage.len()
            invariant
                i <= self.tracked_joltage.len(),
                text@ == concat_decimals(self.tracked_joltage@.take(i as int)),
            decreases self.tracked_joltage.len() - i,
        {
            assert(self.tracked_joltage@.take(i + 1).drop_last() == self.tracked_joltage@.take(
                i as int,
            ));
            let mut digits: Vec<char> = decimal_chars(self.tracked_joltage[i] as i64);
            text.append(&mut digits);
            i += 1;
        }
        assert(self.tracked_joltage@.take(i as int) == self.tracked_joltage@);
        match parse_i64(&text) {
            Ok(v) => v,
            // no joltage is kept, or they spell no number of the type
            Err(_) => 0,
        }
    }
}

/// The banks that the lines describe, or the error of the first line that
/// describes none.
pub open spec fn parse_banks(lines: Seq<Seq<char>>) -> Result<Seq<Seq<i8>>, Error> {
    collect_all(lines, |line: Seq<char>| BatteryBank::parse(line))
}

/// The batteries of each bank.
pub open spec fn bank_views(banks: Seq<BatteryBank>) -> Seq<Seq<i8>> {
    Seq::new(banks.len(), |i: int| banks[i].0@)
}

/// Reads every line of the input.
pub fn read_banks(lines: &Vec<String>) -> (r: Result<Vec<BatteryBank>, Error>)
    ensures
        match r {
            Ok(banks) => parse_banks(line_views(lines@)) == Ok::<Seq<Seq<i8>>, Error>(
                bank_views(banks@),
            ),
            Err(e) => parse_banks(line_views(lines@)) == Err::<Seq<Seq<i8>>, Error>(e),
        },
{
    let ghost texts = line_views(lines@);
    let ghost parse = |line: Seq<char>| BatteryBank::parse(line);
    let mut banks: Vec<BatteryBank> = Vec::new();
    let mut i: usize = 0;
    assert(bank_views(banks@) == Seq::<Seq<i8>>::empty());
    while i < lines.len()
        invariant
            i <= lines.len(),
            texts == line_views(lines@),
            parse == |line: Seq<char>| BatteryBank::parse(line),
            collect_all(texts.take(i as int), parse) == Ok::<Seq<Seq<i8>>, Error>(
                bank_views(banks@),
            ),
        decreases lines.len() - i,
    {
        proof {
            crate::text::lemma_collect_all_step(texts, parse, i as int);
        }
        match BatteryBank::try_from(lines[i].clone()) {
            Ok(bank) => {
                assert(bank_views(banks@.push(bank)) == bank_views(banks@).push(bank.0@));
                banks.push(bank);
            },
            Err(e) => {
                proof {
                    crate::text::lemma_collect_all_error(texts, parse, i + 1);
                }
                return Err(e);
            },
        }
        i += 1;
    }
    assert(texts.take(i as int) == texts);
    Ok(banks)
}

/// The joltage of each bank with two batteries switched on.
pub open spec fn max_joltages(banks: Seq<Seq<i8>>) -> Seq<i64> {
    Seq::new(banks.len(), |i: int| max_joltage_of(banks[i]) as i64)
}

/// The joltage of each bank with twelve batteries switched on.
pub open spec fn overridden_joltages(banks: Seq<Seq<i8>>) -> Seq<i64> {
    Seq::new(banks.len(), |i: int| overridden_joltage_of(banks[i]))
}

/// No bank has more batteries than an `i8` can count.
pub open spec fn banks_countable(banks: Seq<Seq<i8>>) -> bool {
    forall|i: int| 0 <= i < banks.len() ==> (#[trigger] banks[i]).len() <= i8::MAX
}

/// The answer of part one.
#[derive(Clone, Copy, Debug, PartialEq, Eq, Structural)]
pub struct PartOneValue(pub i64);

impl PartOneValue {
    pub fn get(&self) -> (v: i64)
        ensures
            v == self.0,
    {
        self.0
    }

    /// The joltages of the banks that the lines describe, each with two
    /// batteries switched on, added up.
    pub open spec fn of_lines(lines: Seq<Seq<char>>) -> Result<PartOneValue, Error> {
        match parse_banks(lines) {
            Err(e) => Err(e),
            Ok(banks) => match checked_sum(max_joltages(banks)) {
                Some(total) => Ok(PartOneValue(total as i64)),
                None => Err(Error::Overflow),
            },
        }
    }

    /// Reads the lines and adds up the joltages of the banks.
    pub fn try_from_lines(lines: &Vec<String>) -> (r: Result<PartOneValue, Error>)
        ensures
            r == Self::of_lines(line_views(lines@)),
    {
        let battery_banks = match read_banks(lines) {
            Ok(banks) => banks,
            Err(e) => {
                return Err(e);
            },
        };
        let ghost all = bank_views(battery_banks@);
        let mut all_joltages: Vec<i64> = Vec::new();
        let mut i: usize = 0;
        while i < battery_banks.len()
            invariant
                i <= battery_banks.len(),
                all == bank_views(battery_banks@),
                all_joltages@ == max_joltages(all).take(i as int),
            decreases battery_banks.len() - i,
        {
            all_joltages.push(battery_banks[i].max_joltage() as i64);
            i += 1;
        }
        assert(all_joltages@ == max_joltages(all));
        match sum_i64(&all_joltages) {
            Some(total_joltage) => Ok(PartOneValue(total_joltage)),
            None => Err(Error::Overflow),
        }
    }
}

/// The answer of part two.
#[derive(Clone, Copy, Debug, PartialEq, Eq, Structural)]
pub struct PartTwoValue(pub i64);

impl PartTwoValue {
    pub fn get(&self) -> (v: i64)
        ensures
            v == self.0,
    {
        self.0
    }

    /// The joltages of the banks that the lines describe, each with twelve
    /// batteries switched on, added up.
    pub open spec fn of_lines(lines: Seq<Seq<char>>) -> Result<PartTwoValue, Error> {
        match parse_banks(lines) {
            Err(e) => Err(e),
            Ok(banks) => if !banks_countable(banks) {
                Err(Error::Overflow)
            } else {
                match checked_sum(overridden_joltages(banks)) {
                    Some(total) => Ok(PartTwoValue(total as i64)),
                    None => Err(Error::Overflow),
                }
            },
        }
    }

    /// Reads the lines and adds up the joltages of the banks.
    pub fn try_from_lines(lines: &Vec<String>) -> (r: Result<PartTwoValue, Error>)
        ensures
            r == Self::of_lines(line_views(lines@)),
    {
        let battery_banks = match read_banks(lines) {
            Ok(banks) => banks,
            Err(e) => {
                return Err(e);
            },
        };
        let ghost all = bank_views(battery_banks@);
        let mut all_joltages: Vec<i64> = Vec::new();
        let mut i: usize = 0;
        while i < battery_banks.len()
            invariant
                i <= battery_banks.len(),
                all == bank_views(battery_banks@),
                all_joltages@ == overridden_joltages(all).take(i as int),
                parse_banks(line_views(lines@)) == Ok::<Seq<Seq<i8>>, Error>(all),
                forall|k: int| 0 <= k < i ==> (#[trigger] all[k]).len() <= i8::MAX,
            decreases battery_banks.len() - i,
        {
            if battery_banks[i].0.len() > i8::MAX as usize {
                assert(!(all[i as int].len() <= i8::MAX));
                return Err(Error::Overflow);
            }
            all_joltages.push(battery_banks[i].overridden_joltage());
            i += 1;
        }
        assert(all_joltages@ == overridden_joltages(all));
        match sum_i64(&all_joltages) {
            Some(total_joltage) => Ok(PartTwoValue(total_joltage)),
            None => Err(Error::Overflow),
        }
    }
}

/// The input of this day.
pub const DAY_03_FILE: &'static str = "./resources/aoc_25/day_03.txt";

/// Part one of the day, for one input file.
pub struct PartOneProcessor(pub String);

impl PartOneProcessor {
    pub fn new(s: &str) -> (r: Self)
        ensures
            r.0@ == s@,
    {
        Self(s.to_owned())
    }

    /// The answer of part one.
    pub open spec fn answer(lines: Seq<Seq<char>>) -> Result<i64, Error> {
        match PartOneValue::of_lines(lines) {
            Ok(v) => Ok(v.0),
            Err(e) => Err(e),
        }
    }

    /// The answer of part one for the lines of the input.
    pub fn process(&self, lines: &Vec<String>) -> (r: Result<i64, Error>)
        ensures
            r == Self::answer(line_views(lines@)),
    {
        match PartOneValue::try_from_lines(lines) {
            Ok(p1_value) => Ok(p1_value.get()),
            Err(e) => Err(e),
        }
    }
}

/// Part two of the day, for one input file.
pub struct PartTwoProcessor(pub String);

impl PartTwoProcessor {
    pub fn new(s: &str) -> (r: Self)
        ensures
            r.0@ == s@,
    {
        Self(s.to_owned())
    }

    /// The answer of part two.
    pub open spec fn answer(lines: Seq<Seq<char>>) -> Result<i64, Error> {
        match PartTwoValue::of_lines(lines) {
            Ok(v) => Ok(v.0),
            Err(e) => Err(e),
        }
    }

    /// The answer of part two for the lines of the input.
    pub fn process(&self, lines: &Vec<String>) -> (r: Result<i64, Error>)
        ensures
            r == Self::answer(line_views(lines@)),
    {
        match PartTwoValue::try_from_lines(lines) {
            Ok(p2_value) => Ok(p2_value.get()),
            Err(e) => Err(e),
        }
    }
}

/// The day: the file that holds its input, and the answers of both parts.
pub struct Day03Processor(pub String);

impl Day03Processor {
    pub fn new() -> (r: Self)
        ensures
            r.0@ == DAY_03_FILE@,
    {
        Self(DAY_03_FILE.to_owned())
    }

    /// The answers of both parts for the lines of the input.
    pub open spec fn answers(lines: Seq<Seq<char>>) -> (Result<i64, Error>, Result<i64, Error>) {
        (PartOneProcessor::answer(lines), PartTwoProcessor::answer(lines))
    }

    /// Works out both parts for the lines of the input.
    pub fn process(&self, lines: &Vec<String>) -> (r: (Result<i64, Error>, Result<i64, Error>))
        ensures
            r == Self::answers(line_views(lines@)),
    {
        let part_one = PartOneProcessor::new(self.0.as_str()).process(lines);
        let part_two = PartTwoProcessor::new(self.0.as_str()).process(lines);
        (part_one, part_two)
    }
}

impl Default for Day03Processor {
    fn default() -> (r: Self)
        ensures
            r.0@ == DAY_03_FILE@,
    {
        Self::new()
    }
}


/// Every battery of the bank has one digit for its joltage.
pub open spec fn is_digit_bank(bank: Seq<i8>) -> bool {
    forall|i: int| 0 <= i < bank.len() ==> 0 <= #[trigger] bank[i] <= 9
}

/// The number that the batteries `i` and `j` spell.
pub open spec fn pair_value(bank: Seq<i8>, i: int, j: int) -> int {
    10 * bank[i] + bank[j]
}

/// `v` is the largest number that two batteries of the bank spell, the first
/// of the two standing before the second.
pub open spec fn is_best_pair(bank: Seq<i8>, v: int) -> bool {
    &&& exists|i: int, j: int| 0 <= i < j < bank.len() && v == #[trigger] pair_value(bank, i, j)
    &&& forall|i: int, j: int| 0 <= i < j < bank.len() ==> #[trigger] pair_value(bank, i, j) <= v
}

/// The batteries that can still be the first of the two when `k` batteries
/// have been seen: all of them but the last of the bank.
pub open spec fn first_candidates(bank: Seq<i8>, k: nat) -> int {
    if k < bank.len() {
        k as int
    } else {
        bank.len() - 1
    }
}

/// The second battery is the largest one seen behind the place `from`, or 0
/// where none was seen there.
pub open spec fn is_largest_behind(bank: Seq<i8>, from: int, k: nat, second: i8) -> bool {
    &&& forall|j: int| from <= j < k ==> #[trigger] bank[j] <= second
    &&& second == 0 || exists|j: int| from <= j < k && #[trigger] bank[j] == second
}

/// What holds of the two batteries chosen among the first `k` of a bank of
/// digits: the first is the largest of those that can be the first, at the
/// place where it stands first, and the second is the largest one behind that
/// place.
pub open spec fn well_chosen(bank: Seq<i8>, k: nat, first: i8, second: i8) -> bool {
    &&& 0 <= first <= 9
    &&& 0 <= second <= 9
    &&& forall|i: int| 0 <= i < first_candidates(bank, k) ==> #[trigger] bank[i] <= first
    &&& if first == 0 {
        is_largest_behind(bank, 0, k, second)
    } else {
        exists|p: int|
            0 <= p < first_candidates(bank, k) && #[trigger] bank[p] == first && (forall|i: int|
                0 <= i < p ==> #[trigger] bank[i] < first) && is_largest_behind(
                bank,
                p + 1,
                k,
                second,
            )
    }
}

/// The two batteries chosen among the first `k` of a bank of digits are well
/// chosen.
pub proof fn lemma_picked_well(bank: Seq<i8>, k: nat)
    requires
        is_digit_bank(bank),
        k <= bank.len(),
    ensures
        well_chosen(bank, k, picked(bank, k).0, picked(bank, k).1),
    decreases k,
{
    if k > 0 {
        let before = (k - 1) as nat;
        lemma_picked_well(bank, before);
        let (first, second) = picked(bank, before);
        let battery = bank[k - 1];
        let (f, s) = picked(bank, k);
        if battery > first && k < bank.len() {
            assert(bank[k - 1] == f);
            assert(is_largest_behind(bank, k as int, k, s));
        } else if battery > second {
            if first == 0 {
                assert(bank[k - 1] == s);
                assert(is_largest_behind(bank, 0, k, s));
            } else {
                let p = choose|p: int|
                    0 <= p < first_candidates(bank, before) && #[trigger] bank[p] == first && (
                    forall|i: int| 0 <= i < p ==> #[trigger] bank[i] < first) && is_largest_behind(
                        bank,
                        p + 1,
                        before,
                        second,
                    );
                assert(bank[k - 1] == s);
                assert(is_largest_behind(bank, p + 1, k, s));
            }
        } else {
            if first == 0 {
                if second != 0 {
                    let j = choose|j: int| 0 <= j < before && #[trigger] bank[j] == second;
                    assert(bank[j] == s);
                }
                assert(is_largest_behind(bank, 0, k, s));
            } else {
                let p = choose|p: int|
                    0 <= p < first_candidates(bank, before) && #[trigger] bank[p] == first && (
                    forall|i: int| 0 <= i < p ==> #[trigger] bank[i] < first) && is_largest_behind(
                        bank,
                        p + 1,
                        before,
                        second,
                    );
                if second != 0 {
                    let j = choose|j: int| p + 1 <= j < before && #[trigger] bank[j] == second;
                    assert(bank[j] == s);
                }
                assert(is_largest_behind(bank, p + 1, k, s));
            }
        }
    }
}

/// Two digits written one behind the other spell ten times the first and the
/// second.
pub proof fn lemma_joltage_of_digits(first: i8, second: i8)
    requires
        0 <= first <= 9,
        0 <= second <= 9,
    ensures
        joltage_of_pair(first, second) == 10 * first + second,
{
    let text = decimal(first as int) + decimal(second as int);
    let a = crate::text::digit_char(first as int);
    let b = crate::text::digit_char(second as int);
    assert(decimal(first as int) == seq![a]);
    assert(decimal(second as int) == seq![b]);
    assert(text == seq![a, b]);
    assert(crate::text::is_digit(a) && crate::text::digit_value(a) == first);
    assert(crate::text::is_digit(b) && crate::text::digit_value(b) == second);
    let rest = text.skip(1);
    assert(rest == seq![b]);
    assert(rest.skip(1).len() == 0);
    let low = i8::MIN as int;
    let high = i8::MAX as int;
    assert(crate::text::scan_digits(rest.skip(1), 10 * first + second, false, low, high) == Ok::<
        int,
        crate::text::IntErrorKind,
    >(10 * first + second));
    assert(crate::text::scan_digits(rest, first as int, false, low, high) == Ok::<
        int,
        crate::text::IntErrorKind,
    >(10 * first + second));
    assert(crate::text::scan_digits(text, 0, false, low, high) == Ok::<
        int,
        crate::text::IntErrorKind,
    >(10 * first + second));
}

/// In a bank of digits with two batteries or more, the joltage with two
/// batteries switched on is the largest number that two batteries spell, the
/// first of them standing before the second.
pub proof fn lemma_max_joltage_is_best_pair(bank: Seq<i8>)
    requires
        is_digit_bank(bank),
        bank.len() >= 2,
    ensures
        is_best_pair(bank, max_joltage_of(bank) as int),
{
    let n = bank.len();
    let (first, second) = picked(bank, n);
    lemma_picked_well(bank, n);
    lemma_joltage_of_digits(first, second);
    let best = 10 * first + second;
    assert(max_joltage_of(bank) == best);
    if first == 0 {
        assert forall|i: int, j: int| 0 <= i < j < n implies #[trigger] pair_value(bank, i, j)
            <= best by {
            assert(bank[i] <= first);
            assert(bank[j] <= second);
        }
        if second == 0 {
            assert(bank[0] <= first);
            assert(bank[1] <= second);
            assert(best == pair_value(bank, 0, 1));
        } else {
            let j = choose|j: int| 0 <= j < n && #[trigger] bank[j] == second;
            if j < n - 1 {
                assert(bank[j] <= first);
            }
            assert(bank[0] <= first);
            assert(best == pair_value(bank, 0, j));
        }
    } else {
        let p = choose|p: int|
            0 <= p < first_candidates(bank, n) && #[trigger] bank[p] == first && (forall|i: int|
                0 <= i < p ==> #[trigger] bank[i] < first) && is_largest_behind(
                bank,
                p + 1,
                n,
                second,
            );
        assert forall|i: int, j: int| 0 <= i < j < n implies #[trigger] pair_value(bank, i, j)
            <= best by {
            assert(bank[i] <= first);
            assert(0 <= bank[j] <= 9);
            if bank[i] == first {
                if i < p {
                    assert(bank[i] < first);
                }
                assert(bank[j] <= second);
            }
        }
        if second == 0 {
            assert(bank[n - 1] <= second);
            assert(best == pair_value(bank, p, n - 1));
        } else {
            let j = choose|j: int| p + 1 <= j < n && #[trigger] bank[j] == second;
            assert(best == pair_value(bank, p, j));
        }
    }
}


/// The places in the bank of the joltages that are kept after a battery at
/// the place `at` has been seen: the new battery stands where its joltage
/// stands among the joltages kept.
pub open spec fn placed(
    kept: Seq<i8>,
    places: Seq<int>,
    value: i8,
    at: int,
    remaining: int,
    size: int,
) -> Seq<int> {
    let place = first_weaker(kept, value, remaining, size, 0);
    if place < kept.len() {
        places.take(place).push(at)
    } else if kept.len() < size {
        places.push(at)
    } else {
        places
    }
}

/// The places in the bank of the joltages that are kept after the first `k`
/// batteries.
pub open spec fn places_after(bank: Seq<i8>, size: int, k: nat) -> Seq<int>
    decreases k,
{
    if k == 0 {
        Seq::empty()
    } else {
        placed(
            tracked_after(bank, size, (k - 1) as nat),
            places_after(bank, size, (k - 1) as nat),
            bank[k - 1],
            k - 1,
            bank.len() - k,
            size,
        )
    }
}

/// The battery `i` stands between the place before the `j`-th one kept and
/// that place itself.
pub open spec fn left_of_place(places: Seq<int>, j: int, i: int) -> bool {
    0 <= j < places.len() && (if j == 0 {
        -1
    } else {
        places[j - 1]
    }) < i < places[j]
}

/// The battery `i` stands behind the `j`-th place kept, has been seen among
/// the first `m`, and could still be the `j`-th of `size` batteries chosen
/// from a bank of `n`.
pub open spec fn right_of_place(places: Seq<int>, j: int, i: int, m: int, n: int, size: int) -> bool {
    0 <= j < places.len() && places[j] < i < m && i <= n - size + j
}

/// What holds of the joltages kept after `m` batteries and of their places:
/// each is the largest joltage that can stand at its place in the choice, at
/// the first place in the bank where that joltage is found behind the one
/// before it; and enough are kept to fill the choice with the batteries to
/// come.
pub open spec fn well_kept(bank: Seq<i8>, size: int, m: int, kept: Seq<i8>, places: Seq<int>) -> bool {
    let n = bank.len() as int;
    &&& places.len() == kept.len()
    &&& kept.len() <= size
    &&& kept.len() + (n - m) >= size
    &&& forall|j: int|
        0 <= j < kept.len() ==> 0 <= #[trigger] places[j] < m && places[j] <= n - size + j
            && kept[j] == bank[places[j]]
    &&& forall|j: int, l: int|
        0 <= j < l < kept.len() ==> #[trigger] places[j] < #[trigger] places[l]
    &&& (m >= 1 && kept.len() < size ==> kept.len() >= 1 && places[kept.len() - 1] == m - 1)
    &&& forall|j: int, i: int| #[trigger] left_of_place(places, j, i) ==> bank[i] < kept[j]
    &&& forall|j: int, i: int| #[trigger]
        right_of_place(places, j, i, m, n, size) ==> bank[i] <= kept[j]
}

/// The joltages kept and their places are well kept after every battery.
pub proof fn lemma_well_kept(bank: Seq<i8>, size: int, m: nat)
    requires
        1 <= size <= bank.len(),
        m <= bank.len(),
    ensures
        well_kept(bank, size, m as int, tracked_after(bank, size, m), places_after(bank, size, m)),
    decreases m,
{
    let n = bank.len() as int;
    if m > 0 {
        let before = (m - 1) as nat;
        lemma_well_kept(bank, size, before);
        let kept = tracked_after(bank, size, before);
        let places = places_after(bank, size, before);
        let at = m - 1;
        let value = bank[at];
        let remaining = n - m;
        let low = at + size - n;
        let place = first_weaker(kept, value, remaining, size, 0);
        lemma_first_weaker_bounds(kept, value, remaining, size, 0);
        let kept2 = tracked_after(bank, size, m);
        let places2 = places_after(bank, size, m);
        assert(kept2 == adjusted(kept, value, remaining, size));
        assert(places2 == placed(kept, places, value, at, remaining, size));
        // no joltage that is kept, and whose place the battery could take, is
        // smaller than the battery, as far as the places before `place` go
        assert forall|j: int| low <= j < place && 0 <= j implies value <= kept[j] by {
            assert(!(value > kept[j] && remaining >= size - (j + 1)));
        }
        if place < kept.len() {
            assert(place >= low);
            assert forall|j: int| 0 <= j < kept2.len() implies 0 <= #[trigger] places2[j] < m
                && places2[j] <= n - size + j && kept2[j] == bank[places2[j]] by {
                if j < place {
                    assert(places2[j] == places[j]);
                    assert(kept2[j] == kept[j]);
                }
            }
            assert forall|j: int, l: int| 0 <= j < l < kept2.len() implies #[trigger] places2[j]
                < #[trigger] places2[l] by {
                assert(places2[j] == places[j]);
                if l < place {
                    assert(places2[l] == places[l]);
                }
            }
            assert forall|j: int, i: int| #[trigger]
                left_of_place(places2, j, i) implies bank[i] < kept2[j] by {
                if j < place {
                    assert(places2[j] == places[j]);
                    if j > 0 {
                        assert(places2[j - 1] == places[j - 1]);
                    }
                    assert(left_of_place(places, j, i));
                } else {
                    if place > 0 {
                        assert(places2[place - 1] == places[place - 1]);
                    }
                    if i < places[place] {
                        assert(left_of_place(places, place, i));
                    } else if i > places[place] {
                        assert(right_of_place(places, place, i, at, n, size));
                    }
                }
            }
            assert forall|j: int, i: int| #[trigger]
                right_of_place(places2, j, i, m as int, n, size) implies bank[i] <= kept2[j] by {
                assert(j < place);
                assert(places2[j] == places[j]);
                assert(kept2[j] == kept[j]);
                if i < at {
                    assert(right_of_place(places, j, i, at, n, size));
                }
            }
        } else if kept.len() < size {
            assert forall|j: int| 0 <= j < kept2.len() implies 0 <= #[trigger] places2[j] < m
                && places2[j] <= n - size + j && kept2[j] == bank[places2[j]] by {
                if j < kept.len() {
                    assert(places2[j] == places[j]);
                    assert(kept2[j] == kept[j]);
                }
            }
            assert forall|j: int, l: int| 0 <= j < l < kept2.len() implies #[trigger] places2[j]
                < #[trigger] places2[l] by {
                assert(places2[j] == places[j]);
                if l < kept.len() {
                    assert(places2[l] == places[l]);
                }
            }
            assert forall|j: int, i: int| #[trigger]
                left_of_place(places2, j, i) implies bank[i] < kept2[j] by {
                if j < kept.len() {
                    assert(places2[j] == places[j]);
                    if j > 0 {
                        assert(places2[j - 1] == places[j - 1]);
                    }
                    assert(left_of_place(places, j, i));
                } else {
                    if j > 0 {
                        assert(places2[j - 1] == places[j - 1]);
                    }
                }
            }
            assert forall|j: int, i: int| #[trigger]
                right_of_place(places2, j, i, m as int, n, size) implies bank[i] <= kept2[j] by {
                if j < kept.len() {
                    assert(places2[j] == places[j]);
                    assert(kept2[j] == kept[j]);
                    if i < at {
                        assert(right_of_place(places, j, i, at, n, size));
                    }
                }
            }
        } else {
            assert forall|j: int, i: int| #[trigger]
                right_of_place(places2, j, i, m as int, n, size) implies bank[i] <= kept2[j] by {
                if i < at {
                    assert(right_of_place(places, j, i, at, n, size));
                }
            }
        }
    }
}

/// The batteries at the places `chosen` are `size` batteries of the bank in
/// the order in which they stand.
pub open spec fn is_choice(bank: Seq<i8>, size: int, chosen: Seq<int>) -> bool {
    &&& chosen.len() == size
    &&& forall|j: int| 0 <= j < chosen.len() ==> 0 <= #[trigger] chosen[j] < bank.len()
    &&& forall|j: int, l: int|
        0 <= j < l < chosen.len() ==> #[trigger] chosen[j] < #[trigger] chosen[l]
}

/// The joltages of the batteries at the places `chosen`.
pub open spec fn joltages_at(bank: Seq<i8>, chosen: Seq<int>) -> Seq<i8> {
    Seq::new(chosen.len(), |j: int| bank[chosen[j]])
}

/// `a` does not come behind `b` where joltages are read as the digits of a
/// number: the two are the same, or `a` has the smaller joltage at the first
/// place at which they differ.
pub open spec fn spells_no_more(a: Seq<i8>, b: Seq<i8>) -> bool {
    a == b || exists|j: int|
        0 <= j < a.len() && j < b.len() && #[trigger] a[j] < b[j] && a.take(j) == b.take(j)
}

/// The place `j` of a choice leaves room behind it for the places to come.
pub proof fn lemma_choice_leaves_room(bank: Seq<i8>, size: int, chosen: Seq<int>, j: int)
    requires
        is_choice(bank, size, chosen),
        0 <= j < size,
    ensures
        chosen[j] <= bank.len() - size + j,
        j <= chosen[j],
    decreases size - j,
{
    if j < size - 1 {
        lemma_choice_leaves_room(bank, size, chosen, j + 1);
        assert(chosen[j] < chosen[j + 1]);
    }
    lemma_choice_is_far_enough(bank, size, chosen, j);
}

/// The place `j` of a choice has `j` places before it.
pub proof fn lemma_choice_is_far_enough(bank: Seq<i8>, size: int, chosen: Seq<int>, j: int)
    requires
        is_choice(bank, size, chosen),
        0 <= j < size,
    ensures
        j <= chosen[j],
    decreases j,
{
    if j > 0 {
        lemma_choice_is_far_enough(bank, size, chosen, j - 1);
        assert(chosen[j - 1] < chosen[j]);
    }
}

/// As far as a choice spells the same as the joltages kept, its places are
/// not before theirs; or it spells less.
pub proof fn lemma_choice_spells_no_more(bank: Seq<i8>, size: int, chosen: Seq<int>, upto: int)
    requires
        1 <= size <= bank.len(),
        is_choice(bank, size, chosen),
        0 <= upto <= size,
    ensures
        ({
            let kept = tracked_after(bank, size, bank.len());
            let places = places_after(bank, size, bank.len());
            let spelled = joltages_at(bank, chosen);
            ||| exists|j: int|
                0 <= j < upto && #[trigger] spelled[j] < kept[j] && spelled.take(j) == kept.take(j)
            ||| spelled.take(upto) == kept.take(upto) && forall|j: int|
                0 <= j < upto ==> #[trigger] chosen[j] >= places[j]
        }),
    decreases upto,
{
    let n = bank.len() as int;
    let kept = tracked_after(bank, size, bank.len());
    let places = places_after(bank, size, bank.len());
    let spelled = joltages_at(bank, chosen);
    lemma_well_kept(bank, size, bank.len());
    assert(kept.len() == size);
    if upto == 0 {
        assert(spelled.take(0) == kept.take(0));
    } else {
        lemma_choice_spells_no_more(bank, size, chosen, upto - 1);
        let j = upto - 1;
        if spelled.take(j) == kept.take(j) && forall|l: int|
            0 <= l < j ==> #[trigger] chosen[l] >= places[l] {
            lemma_choice_leaves_room(bank, size, chosen, j);
            let i = chosen[j];
            if j > 0 {
                assert(chosen[j - 1] >= places[j - 1]);
                assert(chosen[j - 1] < chosen[j]);
            }
            if i < places[j] {
                assert(left_of_place(places, j, i));
                assert(spelled[j] < kept[j]);
            } else if i > places[j] {
                assert(right_of_place(places, j, i, n, n, size));
            }
            if spelled[j] == kept[j] {
                assert(spelled.take(upto) == kept.take(upto)) by {
                    assert(spelled.take(upto) =~= spelled.take(j).push(spelled[j]));
                    assert(kept.take(upto) =~= kept.take(j).push(kept[j]));
                }
                assert(chosen[j] >= places[j]);
            }
        } else {
            let j0 = choose|j0: int|
                0 <= j0 < upto - 1 && #[trigger] spelled[j0] < kept[j0] && spelled.take(j0)
                    == kept.take(j0);
            assert(0 <= j0 < upto && spelled[j0] < kept[j0] && spelled.take(j0) == kept.take(j0));
        }
    }
}

/// The joltages that are kept when all the batteries of the bank have been
/// seen are joltages of `size` batteries in the order in which they stand,
/// and no `size` batteries in that order spell more.
pub proof fn lemma_kept_joltages_spell_the_most(bank: Seq<i8>, size: int)
    requires
        1 <= size <= bank.len(),
    ensures
        is_choice(bank, size, places_after(bank, size, bank.len())),
        tracked_after(bank, size, bank.len()) == joltages_at(
            bank,
            places_after(bank, size, bank.len()),
        ),
        forall|chosen: Seq<int>| #[trigger]
            is_choice(bank, size, chosen) ==> spells_no_more(
                joltages_at(bank, chosen),
                tracked_after(bank, size, bank.len()),
            ),
{
    let kept = tracked_after(bank, size, bank.len());
    let places = places_after(bank, size, bank.len());
    lemma_well_kept(bank, size, bank.len());
    assert(kept =~= joltages_at(bank, places));
    assert forall|chosen: Seq<int>| #[trigger] is_choice(bank, size, chosen) implies spells_no_more(
        joltages_at(bank, chosen),
        kept,
    ) by {
        let spelled = joltages_at(bank, chosen);
        lemma_choice_spells_no_more(bank, size, chosen, size);
        if spelled.take(size) == kept.take(size) {
            assert(spelled.take(size) == spelled);
            assert(kept.take(size) == kept);
        }
    }
}


} // verus!
