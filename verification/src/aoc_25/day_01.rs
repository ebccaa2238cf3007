//! A dial with the positions 0 to 99 is turned left and right: how often it
//! comes to rest on 0, and how often it passes 0 on the way.

use crate::aoc_25::Error;
use crate::pattern::{captures, captures_view, regex_accepts, regex_captures};
use crate::text::{chars_of, collect_all, line_views, parse_i32, parse_i32_spec};
use vstd::prelude::*;

verus! {

/// The shape of a line: the letter of a direction and a number behind it.
pub const ROTATION_RE: &'static str = "(?<direction>[LR])(?<distance>\\d+)";

/// The way in which the dial is turned.
#[derive(Clone, Copy, Debug, PartialEq, Eq, Structural)]
pub enum Direction {
    Left,
    Right,
}

/// One turn of the dial: the whole rounds it makes, and the clicks that are
/// left over.
#[derive(Clone, Copy, Debug, PartialEq, Eq, Structural)]
pub struct Rotation {
    pub direction: Direction,
    pub distance: i32,
    pub full_rotations: i32,
}

/// `a` divided by 100, rounded towards zero.
pub open spec fn rounds_of(a: int) -> int {
    if a >= 0 {
        a / 100
    } else {
        -((-a) / 100)
    }
}

/// What is left of `a` when the whole hundreds are taken away; it has the sign
/// of `a`.
pub open spec fn clicks_of(a: int) -> int {
    a - 100 * rounds_of(a)
}

impl Rotation {
    /// The turn that the capture groups of a line describe. Group 1 holds the
    /// letter of the direction and group 2 the number of clicks.
    pub open spec fn of_groups(found: Option<Seq<Option<Seq<char>>>>) -> Result<Rotation, Error> {
        match found {
            None => Err(Error::InvalidInput),
            Some(groups) => if groups.len() < 3 || groups[1] is None || groups[2] is None {
                Err(Error::InvalidInput)
            } else {
                match parse_i32_spec(groups[2]->0) {
                    Err(kind) => Err(Error::InvalidIntError(kind)),
                    Ok(full_distance) => Ok(
                        Rotation {
                            direction: if groups[1]->0 == seq!['L'] {
                                Direction::Left
                            } else {
                                Direction::Right
                            },
                            distance: clicks_of(full_distance) as i32,
                            full_rotations: rounds_of(full_distance) as i32,
                        },
                    ),
                }
            },
        }
    }

    /// The turn that a line describes.
    pub open spec fn parse(line: Seq<char>) -> Result<Rotation, Error> {
        if !regex_accepts(ROTATION_RE@) {
            Err(Error::InvalidRegex)
        } else {
            Self::of_groups(regex_captures(ROTATION_RE@, line))
        }
    }

    /// Builds the turn from what the search for the line's shape found.
    pub fn from_captures(found: Option<Vec<Option<String>>>) -> (r: Result<Rotation, Error>)
        ensures
            r == Self::of_groups(captures_view(found)),
    {
        let groups = match found {
            Some(groups) => groups,
            None => {
                return Err(Error::InvalidInput);
            },
        };
        if groups.len() < 3 {
            return Err(Error::InvalidInput);
        }
        let letter = match &groups[1] {
            Some(s) => chars_of(s.as_str()),
            None => {
                return Err(Error::InvalidInput);
            },
        };
        let number = match &groups[2] {
            Some(s) => chars_of(s.as_str()),
            None => {
                return Err(Error::InvalidInput);
            },
        };
        let full_distance: i32 = match parse_i32(&number) {
            Ok(v) => v,
            Err(kind) => {
                return Err(Error::InvalidIntError(kind));
            },
        };
        let direction = if letter.len() == 1 && letter[0] == 'L' {
            assert(letter@ == seq!['L']);
            Direction::Left
        } else {
            assert(letter@ != seq!['L']) by {
                if letter@ == seq!['L'] {
                    assert(seq!['L'].len() == 1);
                    assert(seq!['L'][0] == 'L');
                }
            }
            Direction::Right
        };
        let wide: i64 = full_distance as i64;
        let rounds: i64 = if wide >= 0 {
            wide / 100
        } else {
            -((-wide) / 100)
        };
        let clicks: i64 = wide - 100 * rounds;
        Ok(Rotation { direction, distance: clicks as i32, full_rotations: rounds as i32 })
    }

    /// Reads one line of the input.
    pub fn try_from(value: String) -> (r: Result<Rotation, Error>)
        ensures
            r == Self::parse(value@),
    {
        match captures(ROTATION_RE, value.as_str()) {
            Ok(found) => Self::from_captures(found),
            Err(_) => Err(Error::InvalidRegex),
        }
    }
}

/// The turns of an input, in order.
#[derive(Debug, PartialEq)]
pub struct RotationList(pub Vec<Rotation>);

impl RotationList {
    /// The turns that the lines describe, or the error of the first line that
    /// describes none.
    pub open spec fn parse(lines: Seq<Seq<char>>) -> Result<Seq<Rotation>, Error> {
        collect_all(lines, |line: Seq<char>| Rotation::parse(line))
    }

    /// The turns of the list.
    pub fn rotations(&self) -> (r: &Vec<Rotation>)
        ensures
            r@ == self.0@,
    {
        &self.0
    }

    /// Reads every line of the input.
    pub fn try_from_lines(lines: &Vec<String>) -> (r: Result<RotationList, Error>)
        ensures
            match r {
                Ok(list) => Self::parse(line_views(lines@)) == Ok::<Seq<Rotation>, Error>(list.0@),
                Err(e) => Self::parse(line_views(lines@)) == Err::<Seq<Rotation>, Error>(e),
            },
    {
        let ghost texts = line_views(lines@);
        let ghost parse = |line: Seq<char>| Rotation::parse(line);
        let mut rotations: Vec<Rotation> = Vec::new();
        let mut i: usize = 0;
        while i < lines.len()
            invariant
                i <= lines.len(),
                texts == line_views(lines@),
                parse == |line: Seq<char>| Rotation::parse(line),
                collect_all(texts.take(i as int), parse) == Ok::<Seq<Rotation>, Error>(
                    rotations@,
                ),
            decreases lines.len() - i,
        {
            proof {
                crate::text::lemma_collect_all_step(texts, parse, i as int);
            }
            match Rotation::try_from(lines[i].clone()) {
                Ok(rotation) => {
                    rotations.push(rotation);
                },
                Err(e) => {
                    proof {
                        crate::text::lemma_collect_all_error(texts, parse, i + 1);
                    }
                    return Err(e);
                },
            }
            i += 1;
        }
        assert(texts.take(i as int) == texts);
        Ok(Self(rotations))
    }
}

/// The dial: where it points, how often it has come to rest on 0, and how
/// often it has passed 0 while turning.
#[derive(Clone, Copy, Debug, PartialEq, Eq, Structural)]
pub struct SafeDial {
    pub current_position: i32,
    pub zero_counter: i32,
    pub zero_clicks: i32,
}

/// Where the dial points after the clicks of `rotation`, before it is brought
/// back into 0 to 99.
pub open spec fn raw_position(dial: SafeDial, rotation: Rotation) -> int {
    match rotation.direction {
        Direction::Left => dial.current_position - rotation.distance,
        Direction::Right => dial.current_position + rotation.distance,
    }
}

/// Where the dial points after `rotation`: a position below 0 or above 99 is
/// carried over the end of the scale once.
pub open spec fn next_position(dial: SafeDial, rotation: Rotation) -> int {
    let raw = raw_position(dial, rotation);
    if raw < 0 {
        100 + raw
    } else if raw > 99 {
        raw - 100
    } else {
        raw
    }
}

/// Whether the clicks of `rotation` carry the dial over 0 without starting or
/// ending there.
pub open spec fn passes_zero(dial: SafeDial, rotation: Rotation) -> bool {
    let raw = raw_position(dial, rotation);
    (raw < 0 || raw > 99) && next_position(dial, rotation) != 0 && dial.current_position != 0
}

/// How often the dial has passed 0 after `rotation`: once more if its clicks
/// carry it over 0, and once for each whole round.
pub open spec fn next_zero_clicks(dial: SafeDial, rotation: Rotation) -> int {
    dial.zero_clicks + (if passes_zero(dial, rotation) {
        1int
    } else {
        0int
    }) + rotation.full_rotations
}

/// How often the dial has come to rest on 0 after `rotation`.
pub open spec fn next_zero_counter(dial: SafeDial, rotation: Rotation) -> int {
    dial.zero_counter + if next_position(dial, rotation) == 0 {
        1int
    } else {
        0int
    }
}

/// Every number that the turn works out fits an `i32`.
pub open spec fn can_rotate(dial: SafeDial, rotation: Rotation) -> bool {
    &&& i32::MIN <= raw_position(dial, rotation) <= i32::MAX
    &&& i32::MIN <= next_position(dial, rotation) <= i32::MAX
    &&& passes_zero(dial, rotation) ==> dial.zero_clicks + 1 <= i32::MAX
    &&& i32::MIN <= next_zero_clicks(dial, rotation) <= i32::MAX
    &&& next_zero_counter(dial, rotation) <= i32::MAX
}

/// The dial after `rotation`.
pub open spec fn rotated(dial: SafeDial, rotation: Rotation) -> SafeDial {
    SafeDial {
        current_position: next_position(dial, rotation) as i32,
        zero_counter: next_zero_counter(dial, rotation) as i32,
        zero_clicks: next_zero_clicks(dial, rotation) as i32,
    }
}

/// The dial points at one of its positions, and the turn has fewer clicks than
/// the dial has positions.
pub open spec fn on_scale(dial: SafeDial, rotation: Rotation) -> bool {
    0 <= dial.current_position <= 99 && 0 <= rotation.distance <= 99
}

/// On the scale the dial moves as on a ring of a hundred positions: it ends at
/// the remainder of the raw position, and it stays on the scale.
pub proof fn lemma_rotation_stays_on_scale(dial: SafeDial, rotation: Rotation)
    requires
        on_scale(dial, rotation),
    ensures
        0 <= next_position(dial, rotation) <= 99,
        next_position(dial, rotation) == raw_position(dial, rotation) % 100,
{
}

impl SafeDial {
    /// The dial as it stands at the start: on 50, with nothing counted.
    pub fn new() -> (r: Self)
        ensures
            r == (SafeDial { current_position: 50, zero_counter: 0, zero_clicks: 0 }),
    {
        Self { current_position: 50, zero_counter: 0, zero_clicks: 0 }
    }

    /// Whether the dial can take `rotation` without a number leaving `i32`.
    pub fn can_apply_rotation(&self, rotation: &Rotation) -> (b: bool)
        ensures
            b == can_rotate(*self, *rotation),
    {
        let raw: i64 = match rotation.direction {
            Direction::Left => self.current_position as i64 - rotation.distance as i64,
            Direction::Right => self.current_position as i64 + rotation.distance as i64,
        };
        let next: i64 = if raw < 0 {
            100 + raw
        } else if raw > 99 {
            raw - 100
        } else {
            raw
        };
        let passes: bool = (raw < 0 || raw > 99) && next != 0 && self.current_position != 0;
        let step: i64 = if passes {
            1
        } else {
            0
        };
        let clicks: i64 = self.zero_clicks as i64 + step + rotation.full_rotations as i64;
        let counter: i64 = self.zero_counter as i64 + if next == 0 {
            1i64
        } else {
            0i64
        };
        let low: i64 = i32::MIN as i64;
        let high: i64 = i32::MAX as i64;
        low <= raw && raw <= high && low <= next && next <= high && self.zero_clicks as i64 + step
            <= high && low <= clicks && clicks <= high && counter <= high
    }

    /// Turns the dial.
    pub fn apply_rotation(&mut self, rotation: &Rotation)
        requires
            can_rotate(*old(self), *rotation),
        ensures
            *final(self) == rotated(*old(self), *rotation),
    {
        let previous_position: i32 = self.current_position;
        let new_position: i32 = match rotation.direction {
            Direction::Left => self.current_position - rotation.distance,
            Direction::Right => self.current_position + rotation.distance,
        };
        if new_position < 0 {
            self.current_position = 100 + new_position;
            if self.current_position != 0 && previous_position != 0 {
                self.zero_clicks += 1;
            }
        } else if new_position > 99 {
            self.current_position = new_position - 100;
            if self.current_position != 0 && previous_position != 0 {
                self.zero_clicks += 1;
            }
        } else {
            self.current_position = new_position;
        }
        self.zero_clicks += rotation.full_rotations;
        if self.current_position == 0 {
            self.zero_counter += 1
        }
    }
}

/// The dial after the first `n` of the turns, from its start.
pub open spec fn dial_after(rotations: Seq<Rotation>, n: nat) -> SafeDial
    decreases n,
{
    if n == 0 {
        SafeDial { current_position: 50, zero_counter: 0, zero_clicks: 0 }
    } else {
        rotated(dial_after(rotations, (n - 1) as nat), rotations[n - 1])
    }
}

/// The dial can take every one of the turns in order.
pub open spec fn can_rotate_all(rotations: Seq<Rotation>) -> bool {
    forall|k: nat|
        k < rotations.len() ==> can_rotate(#[trigger] dial_after(rotations, k), rotations[k as int])
}

/// What the turns of an input come to: how often the dial came to rest on 0,
/// and how often it passed 0 on the way.
#[derive(Clone, Copy, Debug, PartialEq, Eq, Structural)]
pub struct Password(pub i32, pub i32);

impl Password {
    pub fn landed_on_zero(&self) -> (v: i32)
        ensures
            v == self.0,
    {
        self.0
    }

    pub fn zero_clicks(&self) -> (v: i32)
        ensures
            v == self.1,
    {
        self.1
    }

    /// The password that the dial shows after all the turns.
    pub open spec fn of_rotations(rotations: Seq<Rotation>) -> Password {
        let dial = dial_after(rotations, rotations.len());
        Password(dial.zero_counter, dial.zero_clicks)
    }

    /// The password of the lines of an input.
    pub open spec fn of_lines(lines: Seq<Seq<char>>) -> Result<Password, Error> {
        match RotationList::parse(lines) {
            Err(e) => Err(e),
            Ok(rotations) => if can_rotate_all(rotations) {
                Ok(Self::of_rotations(rotations))
            } else {
                Err(Error::Overflow)
            },
        }
    }

    /// Makes all the turns, unless one of them takes a number out of `i32`.
    pub fn checked_from(value: &RotationList) -> (r: Option<Password>)
        ensures
            r == if can_rotate_all(value.0@) {
                Some(Self::of_rotations(value.0@))
            } else {
                None
            },
    {
        let mut safe_dial = SafeDial::new();
        let mut i: usize = 0;
        while i < value.0.len()
            invariant
                i <= value.0.len(),
                safe_dial == dial_after(value.0@, i as nat),
                forall|k: nat|
                    k < i ==> can_rotate(#[trigger] dial_after(value.0@, k), value.0@[k as int]),
            decreases value.0.len() - i,
        {
            if !safe_dial.can_apply_rotation(&value.0[i]) {
                assert(!can_rotate(dial_after(value.0@, i as nat), value.0@[i as int]));
                return None;
            }
            safe_dial.apply_rotation(&value.0[i]);
            i += 1;
        }
        Some(Password(safe_dial.zero_counter, safe_dial.zero_clicks))
    }

    /// Makes all the turns.
    pub fn from(value: RotationList) -> (r: Password)
        requires
            can_rotate_all(value.0@),
        ensures
            r == Self::of_rotations(value.0@),
    {
        let mut safe_dial = SafeDial::new();
        let mut i: usize = 0;
        while i < value.0.len()
            invariant
                i <= value.0.len(),
                safe_dial == dial_after(value.0@, i as nat),
                can_rotate_all(value.0@),
            decreases value.0.len() - i,
        {
            assert(can_rotate(dial_after(value.0@, i as nat), value.0@[i as int]));
            safe_dial.apply_rotation(&value.0[i]);
            i += 1;
        }
        Password(safe_dial.zero_counter, safe_dial.zero_clicks)
    }

    /// Reads the lines and makes all the turns.
    pub fn try_from_lines(lines: &Vec<String>) -> (r: Result<Password, Error>)
        ensures
            r == Self::of_lines(line_views(lines@)),
    {
        let rotations = match RotationList::try_from_lines(lines) {
            Ok(list) => list,
            Err(e) => {
                return Err(e);
            },
        };
        match Password::checked_from(&rotations) {
            Some(password) => Ok(password),
            None => Err(Error::Overflow),
        }
    }
}

/// The input of this day.
pub const DAY_01_FILE: &'static str = "./resources/aoc_25/day_01.txt";

/// Part one of the day, for one input file.
pub struct PartOneProcessor(pub String);

impl PartOneProcessor {
    pub fn new(s: &str) -> (r: Self)
        ensures
            r.0@ == s@,
    {
        Self(s.to_owned())
    }

    /// The answer of part one: how often the dial came to rest on 0.
    pub open spec fn answer(lines: Seq<Seq<char>>) -> Result<i32, Error> {
        match Password::of_lines(lines) {
            Ok(password) => Ok(password.0),
            Err(e) => Err(e),
        }
    }

    /// The answer of part one for the lines of the input.
    pub fn process(&self, lines: &Vec<String>) -> (r: Result<i32, Error>)
        ensures
            r == Self::answer(line_views(lines@)),
    {
        match Password::try_from_lines(lines) {
            Ok(password) => Ok(password.landed_on_zero()),
            Err(e) => Err(e),
        }
    }
}

/// Part two of the day, for one input file.
pub struct PartTwoProcessor(pub String);

impl PartTwoProcessor {
    pub fn new(s: &str) -> (r: Self)
        ensures
            r.0@ == s@,
    {
        Self(s.to_owned())
    }

    /// The answer of part two: how often the dial pointed at 0, at rest or in
    /// passing.
    pub open spec fn answer(lines: Seq<Seq<char>>) -> Result<i32, Error> {
        match Password::of_lines(lines) {
            Ok(password) => if i32::MIN <= password.0 + password.1 <= i32::MAX {
                Ok((password.0 + password.1) as i32)
            } else {
                Err(Error::Overflow)
            },
            Err(e) => Err(e),
        }
    }

    /// The answer of part two for the lines of the input.
    pub fn process(&self, lines: &Vec<String>) -> (r: Result<i32, Error>)
        ensures
            r == Self::answer(line_views(lines@)),
    {
        match Password::try_from_lines(lines) {
            Ok(password) => match password.landed_on_zero().checked_add(password.zero_clicks()) {
                Some(sum) => Ok(sum),
                None => Err(Error::Overflow),
            },
            Err(e) => Err(e),
        }
    }
}

/// The day: the file that holds its input, and the answers of both parts.
pub struct Day01Processor(pub String);

impl Day01Processor {
    pub fn new() -> (r: Self)
        ensures
            r.0@ == DAY_01_FILE@,
    {
        Self(DAY_01_FILE.to_owned())
    }

    /// The answers of both parts for the lines of the input.
    pub open spec fn answers(lines: Seq<Seq<char>>) -> (Result<i32, Error>, Result<i32, Error>) {
        (PartOneProcessor::answer(lines), PartTwoProcessor::answer(lines))
    }

    /// Works out both parts for the lines of the input.
    pub fn process(&self, lines: &Vec<String>) -> (r: (Result<i32, Error>, Result<i32, Error>))
        ensures
            r == Self::answers(line_views(lines@)),
    {
        let part_one = PartOneProcessor::new(self.0.as_str()).process(lines);
        let part_two = PartTwoProcessor::new(self.0.as_str()).process(lines);
        (part_one, part_two)
    }
}

impl Default for Day01Processor {
    fn default() -> (r: Self)
        ensures
            r.0@ == DAY_01_FILE@,
    {
        Self::new()
    }
}


} // verus!
