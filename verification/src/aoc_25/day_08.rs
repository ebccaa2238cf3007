//! Junction boxes in space are wired together, the nearest pair first: the
//! circuits that a number of wires make, and the wire that joins the last two
//! circuits into one.

use crate::aoc_25::Error;
use crate::aoc_25::circuits::{
    circuit_size,
    count_root,
    is_largest_product,
    last_merge,
    leading,
    lemma_count_is_size,
    lemma_largest_product_unique,
    lemma_ranking_gives_product,
    lemma_reordered_lists_circuits,
    products_fit,
    sorted_by_size,
    tally,
};
use crate::aoc_25::distance::{distance_bits, Distance, SIGN_BIT};
use crate::aoc_25::wires::{
    all_wires,
    ascending_entries,
    measurable,
    pair_key,
    squared_between,
    wires_by_length,
    wires_in_range,
    wires_of,
    wires_to_lay,
    with_row,
    with_rows,
};
use crate::aoc_25::wiring::{
    join,
    lemma_roots_follow_start,
    lemma_roots_follow_step,
    lemma_roots_settled_step,
    linked,
    roots,
    roots_follow,
    roots_settled,
    wiring_of,
};
use crate::text::{
    chars_of, collect_all, line_views, parse_i64, parse_i64_spec, split, split_at_char, views,
};
use disjoint::DisjointSetVec;
use std::collections::BTreeMap;
use vstd::prelude::*;

verus! {

broadcast use vstd::std_specs::btree::group_btree_axioms;

/// A place in space.
#[derive(Clone, Copy, Debug, Eq, Hash, PartialEq)]
pub struct Location(pub i64, pub i64, pub i64);

/// A junction box, which stands at a place.
#[derive(Clone, Copy, Debug, Eq, Hash, PartialEq)]
pub struct JunctionBox(pub Location);

/// The square of the distance between two places.
pub open spec fn squared_distance(a: Location, b: Location) -> int {
    (a.0 - b.0) * (a.0 - b.0) + (a.1 - b.1) * (a.1 - b.1) + (a.2 - b.2) * (a.2 - b.2)
}

/// The largest number whose square an `i64` holds.
pub const LONGEST_SIDE: i128 = 3_037_000_499;

impl Location {
    pub fn x(&self) -> (v: i64)
        ensures
            v == self.0,
    {
        self.0
    }

    pub fn y(&self) -> (v: i64)
        ensures
            v == self.1,
    {
        self.1
    }

    pub fn z(&self) -> (v: i64)
        ensures
            v == self.2,
    {
        self.2
    }

    /// The distance to `other`, unless the square of the distance is too
    /// large for an `i64`.
    pub fn checked_distance_from(&self, other: Location) -> (r: Option<Distance>)
        ensures
            match r {
                Some(d) => squared_distance(*self, other) <= i64::MAX && d.0 == distance_bits(
                    squared_distance(*self, other) as nat,
                ) && d.0 < SIGN_BIT,
                None => squared_distance(*self, other) > i64::MAX,
            },
            squared_distance(*self, other) >= 0,
    {
        let dx: i128 = self.x() as i128 - other.x() as i128;
        let dy: i128 = self.y() as i128 - other.y() as i128;
        let dz: i128 = self.z() as i128 - other.z() as i128;
        assert(dx * dx >= 0 && dy * dy >= 0 && dz * dz >= 0) by (nonlinear_arith);
        if dx > LONGEST_SIDE || dx < -LONGEST_SIDE {
            assert(dx * dx > i64::MAX) by (nonlinear_arith)
                requires
                    dx > 3_037_000_499 || dx < -3_037_000_499,
            ;
            return None;
        }
        if dy > LONGEST_SIDE || dy < -LONGEST_SIDE {
            assert(dy * dy > i64::MAX) by (nonlinear_arith)
                requires
                    dy > 3_037_000_499 || dy < -3_037_000_499,
            ;
            return None;
        }
        if dz > LONGEST_SIDE || dz < -LONGEST_SIDE {
            assert(dz * dz > i64::MAX) by (nonlinear_arith)
                requires
                    dz > 3_037_000_499 || dz < -3_037_000_499,
            ;
            return None;
        }
        assert(dx * dx <= 3_037_000_499 * 3_037_000_499) by (nonlinear_arith)
            requires
                -3_037_000_499 <= dx <= 3_037_000_499,
        ;
        assert(dy * dy <= 3_037_000_499 * 3_037_000_499) by (nonlinear_arith)
            requires
                -3_037_000_499 <= dy <= 3_037_000_499,
        ;
        assert(dz * dz <= 3_037_000_499 * 3_037_000_499) by (nonlinear_arith)
            requires
                -3_037_000_499 <= dz <= 3_037_000_499,
        ;
        let total: i128 = dx * dx + dy * dy + dz * dz;
        if total > i64::MAX as i128 {
            return None;
        }
        Some(Distance::of_square(total as i64))
    }

    /// The distance to `other`.
    pub fn distance_from(&self, other: Location) -> (d: Distance)
        requires
            squared_distance(*self, other) <= i64::MAX,
        ensures
            d.0 == distance_bits(squared_distance(*self, other) as nat),
    {
        match self.checked_distance_from(other) {
            Some(d) => d,
            None => Distance(0),
        }
    }

    /// The place that a line describes: three numbers with commas between
    /// them. Every field of the line has to be a number, and there have to be
    /// three of them.
    pub open spec fn parse(line: Seq<char>) -> Result<Location, Error> {
        match collect_all(split(line, ','), |field: Seq<char>| parse_i64_spec(field)) {
            Err(kind) => Err(Error::InvalidIntError(kind)),
            Ok(vals) => if vals.len() != 3 {
                Err(Error::InvalidInput)
            } else {
                Ok(Location(vals[0] as i64, vals[1] as i64, vals[2] as i64))
            },
        }
    }

    /// Reads one line of the input.
    pub fn try_from(value: String) -> (r: Result<Location, Error>)
        ensures
            r == Self::parse(value@),
    {
        let text = chars_of(value.as_str());
        let fields = split_at_char(&text, ',');
        let ghost texts = views(fields@);
        let ghost parse = |field: Seq<char>| parse_i64_spec(field);
        let mut vals: Vec<i64> = Vec::new();
        let mut i: usize = 0;
        assert(Seq::new(vals@.len(), |k: int| vals@[k] as int) == Seq::<int>::empty());
        while i < fields.len()
            invariant
                i <= fields.len(),
                texts == views(fields@),
                texts == split(value@, ','),
                parse == |field: Seq<char>| parse_i64_spec(field),
                vals@.len() == i,
                collect_all(texts.take(i as int), parse) == Ok::<
                    Seq<int>,
                    crate::text::IntErrorKind,
                >(Seq::new(vals@.len(), |k: int| vals@[k] as int)),
            decreases fields.len() - i,
        {
            proof {
                crate::text::lemma_collect_all_step(texts, parse, i as int);
            }
            let ghost before = Seq::new(vals@.len(), |k: int| vals@[k] as int);
            match parse_i64(&fields[i]) {
                Ok(v) => {
                    vals.push(v);
                    assert(Seq::new(vals@.len(), |k: int| vals@[k] as int) == before.push(v as int));
                },
                Err(kind) => {
                    proof {
                        crate::text::lemma_collect_all_error(texts, parse, i + 1);
                    }
                    return Err(Error::InvalidIntError(kind));
                },
            }
            i += 1;
        }
        assert(texts.take(i as int) == texts);
        if vals.len() != 3 {
            return Err(Error::InvalidInput);
        }
        Ok(Self(vals[0], vals[1], vals[2]))
    }
}

impl JunctionBox {
    pub fn location(&self) -> (l: Location)
        ensures
            l == self.0,
    {
        self.0
    }

    /// The box that a line describes: the box at the place that the line
    /// gives.
    pub open spec fn parse(line: Seq<char>) -> Result<JunctionBox, Error> {
        match Location::parse(line) {
            Ok(location) => Ok(JunctionBox(location)),
            Err(e) => Err(e),
        }
    }

    /// Reads one line of the input.
    pub fn try_from(value: String) -> (r: Result<JunctionBox, Error>)
        ensures
            r == Self::parse(value@),
    {
        match Location::try_from(value) {
            Ok(location) => Ok(Self(location)),
            Err(e) => Err(e),
        }
    }
}

/// `r` is what laying `num_pairs` wires between the boxes, the shortest
/// first, comes to: the product of the sizes of the three largest circuits.
/// Without a box there is no product, which is invalid input; a distance
/// whose square is too large for an `i64`, or a product of sizes that is, is
/// an overflow.
pub open spec fn is_product_after(boxes: Seq<JunctionBox>, num_pairs: nat, r: Result<i64, Error>) -> bool {
    let wires = wires_by_length(boxes);
    let k = wires_to_lay(wires.len(), num_pairs);
    if boxes.len() == 0 {
        r == Err::<i64, Error>(Error::InvalidInput)
    } else if !measurable(boxes) || !products_fit(wires, k, boxes.len()) {
        r == Err::<i64, Error>(Error::Overflow)
    } else {
        r matches Ok(product) && is_largest_product(wires, k, boxes.len(), product as int)
    }
}

/// The value of the wire that joins the last two circuits when all the wires
/// between the boxes are laid, the shortest first. Fewer than two boxes are
/// invalid input; a distance whose square is too large for an `i64`, or a
/// value that is, is an overflow.
pub open spec fn closing_value(boxes: Seq<JunctionBox>) -> Result<i64, Error> {
    let value = wire_value(boxes, closing_wire(boxes));
    if boxes.len() < 2 {
        Err(Error::InvalidInput)
    } else if !measurable(boxes) || value > i64::MAX || value < i64::MIN {
        Err(Error::Overflow)
    } else {
        Ok(value as i64)
    }
}

/// The junction boxes of the playground.
#[derive(Debug, PartialEq)]
pub struct PlaygroundDecoration {
    pub junction_boxes: Vec<JunctionBox>,
}

impl PlaygroundDecoration {
    /// Measures every box against every later one and keeps the pairs by
    /// their distances, unless a distance has a square too large for an
    /// `i64`.
    pub fn checked_wires(&self) -> (r: Option<BTreeMap<i64, (usize, usize)>>)
        requires
            self.junction_boxes@.len() >= 1,
        ensures
            match r {
                Some(known) => measurable(self.junction_boxes@) && known@ == all_wires(
                    self.junction_boxes@,
                ) && wires_in_range(known@, self.junction_boxes@.len()),
                None => !measurable(self.junction_boxes@),
            },
    {
        let ghost boxes = self.junction_boxes@;
        let mut distances: BTreeMap<i64, (usize, usize)> = BTreeMap::new();
        let num_junction_boxes: usize = self.junction_boxes.len();
        let mut i: usize = 0;
        while i < num_junction_boxes - 1
            invariant
                i <= num_junction_boxes - 1,
                num_junction_boxes == boxes.len(),
                num_junction_boxes >= 1,
                boxes == self.junction_boxes@,
                distances@ == with_rows(boxes, i as int),
                wires_in_range(distances@, boxes.len()),
                forall|a: int, b: int|
                    0 <= a < i && a < b < boxes.len() ==> #[trigger] squared_between(boxes, a, b)
                        <= i64::MAX,
            decreases num_junction_boxes - i,
        {
            let mut j: usize = i + 1;
            while j < num_junction_boxes
                invariant
                    i < num_junction_boxes - 1,
                    i < j <= num_junction_boxes,
                    num_junction_boxes == boxes.len(),
                    boxes == self.junction_boxes@,
                    distances@ == with_row(boxes, with_rows(boxes, i as int), i as int, j as int),
                    wires_in_range(distances@, boxes.len()),
                    forall|a: int, b: int|
                        0 <= a < i && a < b < boxes.len() ==> #[trigger] squared_between(
                            boxes,
                            a,
                            b,
                        ) <= i64::MAX,
                    forall|b: int|
                        i < b < j ==> #[trigger] squared_between(boxes, i as int, b) <= i64::MAX,
                decreases num_junction_boxes - j,
            {
                let distance: Distance = match self.junction_boxes[i].location().checked_distance_from(
                    self.junction_boxes[j].location(),
                ) {
                    Some(distance) => distance,
                    None => {
                        assert(!(squared_between(boxes, i as int, j as int) <= i64::MAX));
                        return None;
                    },
                };
                let key: i64 = distance.order_key();
                assert(key == pair_key(boxes, i as int, j as int));
                distances.insert(key, (i, j));
                j += 1;
            }
            i += 1;
        }
        Some(distances)
    }

    /// Lays the first `count` of the wires in a set in which every box is on
    /// its own.
    fn lay(
        set: &mut DisjointSetVec<JunctionBox>,
        entries: &Vec<(i64, (usize, usize))>,
        count: usize,
    )
        requires
            count <= entries@.len(),
            forall|i: int| 0 <= i < roots(*old(set)).len() ==> #[trigger] roots(*old(set))[i] == i,
            forall|i: int|
                0 <= i < entries@.len() ==> (#[trigger] entries@[i]).1.0 < roots(*old(set)).len()
                    && entries@[i].1.1 < roots(*old(set)).len(),
        ensures
            roots(*final(set)).len() == roots(*old(set)).len(),
            roots_follow(roots(*final(set)), wires_of(entries@), count as nat),
            roots_settled(roots(*final(set))),
    {
        let ghost wires = wires_of(entries@);
        let ghost n = roots(*set).len();
        proof {
            lemma_roots_follow_start(roots(*set), wires);
        }
        let mut num_connected: usize = 0;
        while num_connected < count
            invariant
                num_connected <= count <= entries@.len(),
                wires == wires_of(entries@),
                roots(*set).len() == n,
                forall|i: int|
                    0 <= i < entries@.len() ==> (#[trigger] entries@[i]).1.0 < n && entries@[i].1.1
                        < n,
                roots_follow(roots(*set), wires, num_connected as nat),
                roots_settled(roots(*set)),
            decreases count - num_connected,
        {
            let (i, j) = entries[num_connected].1;
            let ghost before = roots(*set);
            assert(wires[num_connected as int] == (i, j));
            let joined = join(set, i, j);
            proof {
                lemma_roots_follow_step(before, roots(*set), wires, num_connected as nat);
                lemma_roots_settled_step(before, roots(*set), i as int, j as int);
            }
            num_connected += 1;
        }
    }

    /// The product of the sizes of the three largest circuits after
    /// `num_pairs` wires have been laid, the shortest first, or why it cannot
    /// be had: there is no box, a distance has a square too large for an
    /// `i64`, or a product of sizes is too large for one. A wire counts whether
    /// it joins two circuits or finds both its boxes in one; no more wires are
    /// laid than there are, and with `num_pairs` at 0 none is laid.
    pub fn checked_calculate_circuits(&self, num_pairs: usize) -> (r: Result<i64, Error>)
        ensures
            is_product_after(self.junction_boxes@, num_pairs as nat, r),
    {
        let ghost boxes = self.junction_boxes@;
        if self.junction_boxes.len() == 0 {
            return Err(Error::InvalidInput);
        }
        let distances = match self.checked_wires() {
            Some(distances) => distances,
            None => {
                return Err(Error::Overflow);
            },
        };
        let entries = ascending_entries(&distances);
        let ghost wires = wires_of(entries@);
        assert(wires == wires_by_length(boxes));
        let mut boxes_set: DisjointSetVec<JunctionBox> = wiring_of(self.junction_boxes.clone());
        let count: usize = if num_pairs < entries.len() {
            num_pairs
        } else {
            entries.len()
        };
        let ghost k = count as nat;
        assert(k == wires_to_lay(wires.len(), num_pairs as nat));
        assert(roots(boxes_set).len() == boxes.len());
        assert forall|i: int| 0 <= i < entries@.len() implies (#[trigger] entries@[i]).1.0 < roots(
            boxes_set,
        ).len() && entries@[i].1.1 < roots(boxes_set).len() by {
            assert(distances@.contains_key(entries@[i].0));
        }
        PlaygroundDecoration::lay(&mut boxes_set, &entries, count);
        let ghost r = roots(boxes_set);
        let listed = match tally(&boxes_set) {
            Some(listed) => listed,
            None => {
                proof {
                    let a = choose|a: int|
                        0 <= a < r.len() && count_root(r, #[trigger] r[a], r.len()) > i64::MAX;
                    lemma_count_is_size(r, wires, k, a, r.len());
                    assert(!(circuit_size(wires, k, boxes.len(), a) <= i64::MAX));
                }
                return Err(Error::Overflow);
            },
        };
        let ghost before = listed@;
        let ranked = sorted_by_size(listed);
        proof {
            lemma_reordered_lists_circuits(r, before, ranked@);
            lemma_ranking_gives_product(r, wires, k, ranked@);
        }
        match leading(&ranked) {
            Some(product) => {
                assert(products_fit(wires, k, boxes.len()));
                Ok(product)
            },
            None => {
                assert(!products_fit(wires, k, boxes.len()));
                Err(Error::Overflow)
            },
        }
    }

    /// The product of the sizes of the three largest circuits after
    /// `num_pairs` wires have been laid, the shortest first.
    pub fn calculate_circuits(&self, num_pairs: usize) -> (r: i64)
        requires
            self.junction_boxes@.len() >= 1,
            measurable(self.junction_boxes@),
            products_fit(
                wires_by_length(self.junction_boxes@),
                wires_to_lay(wires_by_length(self.junction_boxes@).len(), num_pairs as nat),
                self.junction_boxes@.len(),
            ),
        ensures
            is_product_after(self.junction_boxes@, num_pairs as nat, Ok::<i64, Error>(r)),
            is_largest_product(
                wires_by_length(self.junction_boxes@),
                wires_to_lay(wires_by_length(self.junction_boxes@).len(), num_pairs as nat),
                self.junction_boxes@.len(),
                r as int,
            ),
    {
        match self.checked_calculate_circuits(num_pairs) {
            Ok(product) => product,
            Err(_) => 0,
        }
    }
}

/// What the wire between two boxes comes to: the product of the first
/// coordinates of the boxes.
pub open spec fn wire_value(boxes: Seq<JunctionBox>, wire: (usize, usize)) -> int {
    boxes[wire.0 as int].0.0 * boxes[wire.1 as int].0.0
}

/// The wire that joins the last two circuits when all the wires are laid, the
/// shortest first.
pub open spec fn closing_wire(boxes: Seq<JunctionBox>) -> (usize, usize) {
    last_merge(wires_by_length(boxes), wires_by_length(boxes).len())
}

impl PlaygroundDecoration {
    /// The value of the wire that joins the last two circuits when all the
    /// wires are laid, or why it cannot be had: there are fewer than two
    /// boxes, a distance has a square too large for an `i64`, or the value is
    /// too large for one.
    pub fn checked_join_all(&self) -> (r: Result<i64, Error>)
        ensures
            r == closing_value(self.junction_boxes@),
    {
        let ghost boxes = self.junction_boxes@;
        let num_boxes: usize = self.junction_boxes.len();
        if num_boxes < 2 {
            return Err(Error::InvalidInput);
        }
        let distances = match self.checked_wires() {
            Some(distances) => distances,
            None => {
                return Err(Error::Overflow);
            },
        };
        let entries = ascending_entries(&distances);
        let ghost wires = wires_of(entries@);
        assert(wires == wires_by_length(boxes));
        let mut boxes_set: DisjointSetVec<JunctionBox> = wiring_of(self.junction_boxes.clone());
        let mut last_join: (usize, usize) = (0, 1);
        proof {
            lemma_roots_follow_start(roots(boxes_set), wires);
        }
        assert forall|i: int| 0 <= i < entries@.len() implies (#[trigger] entries@[i]).1.0
            < num_boxes && entries@[i].1.1 < num_boxes by {
            assert(distances@.contains_key(entries@[i].0));
        }
        let mut k: usize = 0;
        while k < entries.len()
            invariant
                k <= entries@.len(),
                wires == wires_of(entries@),
                num_boxes >= 2,
                roots(boxes_set).len() == num_boxes,
                forall|i: int|
                    0 <= i < entries@.len() ==> (#[trigger] entries@[i]).1.0 < num_boxes
                        && entries@[i].1.1 < num_boxes,
                roots_follow(roots(boxes_set), wires, k as nat),
                last_join == last_merge(wires, k as nat),
                last_join.0 < num_boxes && last_join.1 < num_boxes,
            decreases entries@.len() - k,
        {
            let (i, j) = entries[k].1;
            let ghost before = roots(boxes_set);
            assert(wires[k as int] == (i, j));
            assert(before[i as int] == before[j as int] <==> linked(wires, k as nat, i as int, j as int));
            if join(&mut boxes_set, i, j) {
                last_join = (i, j);
            }
            proof {
                lemma_roots_follow_step(before, roots(boxes_set), wires, k as nat);
            }
            k += 1;
        }
        let first: i64 = self.junction_boxes[last_join.0].location().x();
        let second: i64 = self.junction_boxes[last_join.1].location().x();
        match first.checked_mul(second) {
            Some(value) => Ok(value),
            None => Err(Error::Overflow),
        }
    }

    /// The value of the wire that joins the last two circuits when all the
    /// wires are laid, the shortest first.
    pub fn join_all(&self) -> (r: i64)
        requires
            self.junction_boxes@.len() >= 2,
            measurable(self.junction_boxes@),
            i64::MIN <= wire_value(self.junction_boxes@, closing_wire(self.junction_boxes@))
                <= i64::MAX,
        ensures
            r == wire_value(self.junction_boxes@, closing_wire(self.junction_boxes@)),
            closing_value(self.junction_boxes@) == Ok::<i64, Error>(r),
    {
        match self.checked_join_all() {
            Ok(value) => value,
            Err(_) => 0,
        }
    }

    /// The boxes that the lines describe, or the error of the first line that
    /// describes none.
    pub open spec fn parse(lines: Seq<Seq<char>>) -> Result<Seq<JunctionBox>, Error> {
        collect_all(lines, |line: Seq<char>| JunctionBox::parse(line))
    }

    /// Reads every line of the input.
    pub fn try_from_lines(lines: &Vec<String>) -> (r: Result<PlaygroundDecoration, Error>)
        ensures
            match r {
                Ok(decoration) => Self::parse(line_views(lines@)) == Ok::<Seq<JunctionBox>, Error>(
                    decoration.junction_boxes@,
                ),
                Err(e) => Self::parse(line_views(lines@)) == Err::<Seq<JunctionBox>, Error>(e),
            },
    {
        let ghost texts = line_views(lines@);
        let ghost parse = |line: Seq<char>| JunctionBox::parse(line);
        let mut junction_boxes: Vec<JunctionBox> = Vec::new();
        let mut i: usize = 0;
        while i < lines.len()
            invariant
                i <= lines.len(),
                texts == line_views(lines@),
                parse == |line: Seq<char>| JunctionBox::parse(line),
                collect_all(texts.take(i as int), parse) == Ok::<Seq<JunctionBox>, Error>(
                    junction_boxes@,
                ),
            decreases lines.len() - i,
        {
            proof {
                crate::text::lemma_collect_all_step(texts, parse, i as int);
            }
            match JunctionBox::try_from(lines[i].clone()) {
                Ok(junction_box) => {
                    junction_boxes.push(junction_box);
                },
                Err(e) => {
                    proof {
                        crate::text::lemma_collect_all_error(texts, parse, i + 1);
                    }
                    return Err(e);
                },
            }
            i += 1;
        }
        assert(texts.take(i as int) == texts);
        Ok(Self { junction_boxes })
    }
}

/// The input of this day.
pub const DAY_08_FILE: &'static str = "./resources/aoc_25/day_08.txt";

/// The number of wires that part one lays.
pub const WIRES_OF_PART_ONE: usize = 1000;

/// The day: the file that holds its input, and the answers of both parts.
pub struct Day08Processor(pub String);

impl Day08Processor {
    pub fn new() -> (r: Self)
        ensures
            r.0@ == DAY_08_FILE@,
    {
        Self(DAY_08_FILE.to_owned())
    }

    /// `r` is the answer of part one for the lines: the product of the sizes
    /// of the three largest circuits after a thousand wires.
    pub open spec fn is_answer_of_part1(lines: Seq<Seq<char>>, r: Result<i64, Error>) -> bool {
        match PlaygroundDecoration::parse(lines) {
            Err(e) => r == Err::<i64, Error>(e),
            Ok(boxes) => is_product_after(boxes, WIRES_OF_PART_ONE as nat, r),
        }
    }

    /// The answer of part two for the lines: the value of the wire that joins
    /// the last two circuits.
    pub open spec fn answer_of_part2(lines: Seq<Seq<char>>) -> Result<i64, Error> {
        match PlaygroundDecoration::parse(lines) {
            Err(e) => Err(e),
            Ok(boxes) => closing_value(boxes),
        }
    }

    /// Works out both parts for the lines of the input.
    pub fn process(&self, lines: &Vec<String>) -> (r: (Result<i64, Error>, Result<i64, Error>))
        ensures
            Self::is_answer_of_part1(line_views(lines@), r.0),
            r.1 == Self::answer_of_part2(line_views(lines@)),
    {
        (self.process_part1(lines), self.process_part2(lines))
    }

    /// The answer of part one for the lines of the input.
    pub fn process_part1(&self, lines: &Vec<String>) -> (r: Result<i64, Error>)
        ensures
            Self::is_answer_of_part1(line_views(lines@), r),
    {
        match PlaygroundDecoration::try_from_lines(lines) {
            Ok(pd) => pd.checked_calculate_circuits(WIRES_OF_PART_ONE),
            Err(e) => Err(e),
        }
    }

    /// The answer of part two for the lines of the input.
    pub fn process_part2(&self, lines: &Vec<String>) -> (r: Result<i64, Error>)
        ensures
            r == Self::answer_of_part2(line_views(lines@)),
    {
        match PlaygroundDecoration::try_from_lines(lines) {
            Ok(pd) => pd.checked_join_all(),
            Err(e) => Err(e),
        }
    }
}

impl Default for Day08Processor {
    fn default() -> (r: Self)
        ensures
            r.0@ == DAY_08_FILE@,
    {
        Self::new()
    }
}

/// Laying the same number of wires between the same boxes comes to the same,
/// whatever the boxes and the number are, a failure included: the outcome
/// rests on nothing but the two, neither on the order in which the circuits
/// are counted nor on which of several circuits of one size is taken.
pub proof fn lemma_product_after_unique(
    boxes: Seq<JunctionBox>,
    num_pairs: nat,
    r: Result<i64, Error>,
    s: Result<i64, Error>,
)
    requires
        is_product_after(boxes, num_pairs, r),
        is_product_after(boxes, num_pairs, s),
    ensures
        r == s,
{
    let wires = wires_by_length(boxes);
    let k = wires_to_lay(wires.len(), num_pairs);
    if boxes.len() > 0 && measurable(boxes) && products_fit(wires, k, boxes.len()) {
        lemma_largest_product_unique(wires, k, boxes.len(), r->Ok_0 as int, s->Ok_0 as int);
    }
}

/// The lines have one answer of part one.
pub proof fn lemma_answer_of_part1_unique(
    lines: Seq<Seq<char>>,
    r: Result<i64, Error>,
    s: Result<i64, Error>,
)
    requires
        Day08Processor::is_answer_of_part1(lines, r),
        Day08Processor::is_answer_of_part1(lines, s),
    ensures
        r == s,
{
    match PlaygroundDecoration::parse(lines) {
        Ok(boxes) => {
            lemma_product_after_unique(boxes, WIRES_OF_PART_ONE as nat, r, s);
        },
        Err(_) => {},
    }
}

} // verus!
