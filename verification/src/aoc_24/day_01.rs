//! Two lists of numbers side by side: how far apart they are when both are
//! sorted, and how often the numbers of the left list occur in the right one.

use crate::aoc_24::Error;
use crate::pattern::{captures, captures_view, regex_accepts, regex_captures};
use crate::text::{chars_of, line_views, parse_i32, parse_i32_spec};
use itertools::Itertools;
use std::collections::HashMap;
use vstd::prelude::*;

verus! {

broadcast use vstd::std_specs::hash::group_hash_axioms;

/// The shape of a line: two numbers with spaces between them, at its end.
pub const INPUT_NODE_RE: &'static str = "(?<left>\\d+) +(?<right>\\d+)$";

/// One line of the input: a number of the left list and one of the right.
#[derive(Debug, PartialEq)]
pub struct InputNode {
    pub left: i32,
    pub right: i32,
}

impl InputNode {
    /// The node that the capture groups of a line describe. Group 1 holds the
    /// left number and group 2 the right one.
    pub open spec fn of_groups(found: Option<Seq<Option<Seq<char>>>>) -> Result<InputNode, Error> {
        match found {
            None => Err(Error::InvalidInput),
            Some(groups) => if groups.len() < 3 || groups[1] is None || groups[2] is None {
                Err(Error::InvalidInput)
            } else {
                match parse_i32_spec(groups[1]->0) {
                    Err(kind) => Err(Error::InvalidInt(kind)),
                    Ok(left) => match parse_i32_spec(groups[2]->0) {
                        Err(kind) => Err(Error::InvalidInt(kind)),
                        Ok(right) => Ok(InputNode { left: left as i32, right: right as i32 }),
                    },
                }
            },
        }
    }

    /// The node that a line describes.
    pub open spec fn parse(line: Seq<char>) -> Result<InputNode, Error> {
        if !regex_accepts(INPUT_NODE_RE@) {
            Err(Error::InvalidRegex)
        } else {
            Self::of_groups(regex_captures(INPUT_NODE_RE@, line))
        }
    }

    /// Builds the node from what the search for the line's shape found.
    pub fn from_captures(found: Option<Vec<Option<String>>>) -> (r: Result<InputNode, Error>)
        ensures
            r == Self::of_groups(captures_view(found)),
    {
        let groups = match found {
            Some(groups) => groups,
            None => {
                return Err(Error::InvalidInput);
            },
        };
        if groups.len() < 3 {
            return Err(Error::InvalidInput);
        }
        let left_text = match &groups[1] {
            Some(s) => chars_of(s.as_str()),
            None => {
                return Err(Error::InvalidInput);
            },
        };
        let right_text = match &groups[2] {
            Some(s) => chars_of(s.as_str()),
            None => {
                return Err(Error::InvalidInput);
            },
        };
        let left = match parse_i32(&left_text) {
            Ok(v) => v,
            Err(kind) => {
                return Err(Error::InvalidInt(kind));
            },
        };
        let right = match parse_i32(&right_text) {
            Ok(v) => v,
            Err(kind) => {
                return Err(Error::InvalidInt(kind));
            },
        };
        Ok(InputNode { left, right })
    }

    /// Reads one line of the input.
    pub fn try_from(value: String) -> (r: Result<InputNode, Error>)
        ensures
            r == Self::parse(value@),
    {
        match captures(INPUT_NODE_RE, value.as_str()) {
            Ok(found) => Self::from_captures(found),
            Err(_) => Err(Error::InvalidRegex),
        }
    }
}

/// The lines of the input as nodes, or the error of the first line that is
/// none.
pub open spec fn parse_nodes(lines: Seq<Seq<char>>) -> Result<Seq<InputNode>, Error> {
    crate::text::collect_all(lines, |line: Seq<char>| InputNode::parse(line))
}

/// Reads every line of the input.
pub fn read_nodes(lines: &Vec<String>) -> (r: Result<Vec<InputNode>, Error>)
    ensures
        match r {
            Ok(nodes) => parse_nodes(line_views(lines@)) == Ok::<Seq<InputNode>, Error>(nodes@),
            Err(e) => parse_nodes(line_views(lines@)) == Err::<Seq<InputNode>, Error>(e),
        },
{
    let ghost texts = line_views(lines@);
    let ghost parse = |line: Seq<char>| InputNode::parse(line);
    let mut nodes: Vec<InputNode> = Vec::new();
    let mut i: usize = 0;
    while i < lines.len()
        invariant
            i <= lines.len(),
            texts == line_views(lines@),
            parse == |line: Seq<char>| InputNode::parse(line),
            crate::text::collect_all(texts.take(i as int), parse) == Ok::<
                Seq<InputNode>,
                Error,
            >(nodes@),
        decreases lines.len() - i,
    {
        proof {
            crate::text::lemma_collect_all_step(texts, parse, i as int);
        }
        match InputNode::try_from(lines[i].clone()) {
            Ok(node) => {
                nodes.push(node);
            },
            Err(e) => {
                proof {
                    crate::text::lemma_collect_all_error(texts, parse, i + 1);
                }
                return Err(e);
            },
        }
        i += 1;
    }
    assert(texts.take(i as int) == texts);
    Ok(nodes)
}

/// The left numbers of the nodes, in order.
pub open spec fn lefts(nodes: Seq<InputNode>) -> Seq<i32> {
    Seq::new(nodes.len(), |i: int| nodes[i].left)
}

/// The right numbers of the nodes, in order.
pub open spec fn rights(nodes: Seq<InputNode>) -> Seq<i32> {
    Seq::new(nodes.len(), |i: int| nodes[i].right)
}

/// The order in which both lists are sorted.
pub open spec fn ascending() -> spec_fn(i32, i32) -> bool {
    |x: i32, y: i32| x <= y
}

/// The distance between two numbers.
pub open spec fn gap(a: int, b: int) -> int {
    if a >= b {
        a - b
    } else {
        b - a
    }
}

/// The sum of the distances between the numbers of `a` and those of `b` at the
/// same places.
pub open spec fn gaps(a: Seq<i32>, b: Seq<i32>) -> int
    decreases a.len(),
{
    if a.len() == 0 {
        0
    } else {
        gaps(a.drop_last(), b) + gap(a.last() as int, b[a.len() - 1] as int)
    }
}

/// The distance between the two lists: both are sorted, and the distances
/// between the numbers that then stand side by side are added up.
pub open spec fn total_distance(nodes: Seq<InputNode>) -> int {
    gaps(lefts(nodes).sort_by(ascending()), rights(nodes).sort_by(ascending()))
}

/// A longer prefix is no nearer than a shorter one.
pub proof fn lemma_gaps_prefix(a: Seq<i32>, b: Seq<i32>, i: int)
    requires
        0 <= i <= a.len(),
    ensures
        0 <= gaps(a.take(i), b) <= gaps(a, b),
    decreases a.len(),
{
    if i == a.len() {
        assert(a.take(i) == a);
        if a.len() > 0 {
            lemma_gaps_prefix(a.drop_last(), b, a.len() - 1);
            assert(a.drop_last().take(a.len() - 1) == a.drop_last());
        }
    } else {
        lemma_gaps_prefix(a.drop_last(), b, i);
        assert(a.drop_last().take(i) == a.take(i));
    }
}

/// The order of the integers is a total ordering.
pub proof fn lemma_ascending_total()
    ensures
        vstd::relations::total_ordering(ascending()),
{
}

/// Sorts `v` with `<[i32]>::sort` of std. The contract claims what the
/// documentation of that method says: the numbers are the same ones, and they
/// stand in ascending order.
#[verifier::external_body]
fn sort_ascending(v: &mut Vec<i32>)
    ensures
        final(v)@.to_multiset() == old(v)@.to_multiset(),
        vstd::relations::sorted_by(final(v)@, ascending()),
{
    v.sort();
}

/// The answer of part one.
#[derive(Debug, PartialEq)]
pub struct PartOneValue(pub i32);

impl PartOneValue {
    pub fn value(&self) -> (v: i32)
        ensures
            v == self.0,
    {
        self.0
    }

    /// The distance between the two lists that the lines hold.
    pub open spec fn of_lines(lines: Seq<Seq<char>>) -> Result<PartOneValue, Error> {
        match parse_nodes(lines) {
            Err(e) => Err(e),
            Ok(nodes) => if total_distance(nodes) <= i32::MAX {
                Ok(PartOneValue(total_distance(nodes) as i32))
            } else {
                Err(Error::Overflow)
            },
        }
    }

    /// Reads the lines and measures the distance between the two lists.
    pub fn try_from_lines(lines: &Vec<String>) -> (r: Result<PartOneValue, Error>)
        ensures
            r == Self::of_lines(line_views(lines@)),
    {
        let nodes = match read_nodes(lines) {
            Ok(nodes) => nodes,
            Err(e) => {
                return Err(e);
            },
        };
        match DistanceCalculator::new(nodes).checked_calculate() {
            Some(value) => Ok(value),
            None => Err(Error::Overflow),
        }
    }
}

/// Measures how far apart the two lists are.
#[derive(Debug, PartialEq)]
pub struct DistanceCalculator {
    pub nodes: Vec<InputNode>,
}

impl DistanceCalculator {
    pub fn new(nodes: Vec<InputNode>) -> (r: Self)
        ensures
            r.nodes == nodes,
    {
        Self { nodes }
    }

    /// The distance between the two lists, unless it is too large for an `i32`.
    pub fn checked_calculate(&self) -> (r: Option<PartOneValue>)
        ensures
            r == if total_distance(self.nodes@) <= i32::MAX {
                Some(PartOneValue(total_distance(self.nodes@) as i32))
            } else {
                None
            },
            0 <= total_distance(self.nodes@),
    {
        let n: usize = self.nodes.len();
        let mut left: Vec<i32> = Vec::new();
        let mut right: Vec<i32> = Vec::new();
        let mut k: usize = 0;
        while k < n
            invariant
                k <= n,
                n == self.nodes.len(),
                left@ == lefts(self.nodes@).take(k as int),
                right@ == rights(self.nodes@).take(k as int),
            decreases n - k,
        {
            left.push(self.nodes[k].left);
            right.push(self.nodes[k].right);
            k += 1;
        }
        assert(left@ == lefts(self.nodes@));
        assert(right@ == rights(self.nodes@));
        sort_ascending(&mut left);
        sort_ascending(&mut right);
        proof {
            lemma_ascending_total();
            lefts(self.nodes@).lemma_sort_by_ensures(ascending());
            rights(self.nodes@).lemma_sort_by_ensures(ascending());
            vstd::seq_lib::lemma_sorted_unique(
                left@,
                lefts(self.nodes@).sort_by(ascending()),
                ascending(),
            );
            vstd::seq_lib::lemma_sorted_unique(
                right@,
                rights(self.nodes@).sort_by(ascending()),
                ascending(),
            );
            left@.to_multiset_ensures();
            right@.to_multiset_ensures();
            lefts(self.nodes@).to_multiset_ensures();
            rights(self.nodes@).to_multiset_ensures();
        }
        assert(left@.len() == n && right@.len() == n);
        let mut distance: i64 = 0;
        let mut idx: usize = 0;
        while idx < n
            invariant
                idx <= n,
                left@.len() == n,
                right@.len() == n,
                distance == gaps(left@.take(idx as int), right@),
                0 <= distance <= i32::MAX,
                left@ == lefts(self.nodes@).sort_by(ascending()),
                right@ == rights(self.nodes@).sort_by(ascending()),
            decreases n - idx,
        {
            let l: i64 = left[idx] as i64;
            let r: i64 = right[idx] as i64;
            let step: i64 = if l >= r {
                l - r
            } else {
                r - l
            };
            proof {
                assert(left@.take(idx + 1).drop_last() == left@.take(idx as int));
                lemma_gaps_prefix(left@, right@, idx + 1);
            }
            if distance + step > i32::MAX as i64 {
                return None;
            }
            proof {
                lemma_gaps_prefix(left@, right@, 0);
            }
            distance = distance + step;
            idx += 1;
        }
        assert(left@.take(idx as int) == left@);
        proof {
            lemma_gaps_prefix(left@, right@, 0);
        }
        Some(PartOneValue(distance as i32))
    }

    /// The distance between the two lists.
    pub fn calculate(&self) -> (r: PartOneValue)
        requires
            total_distance(self.nodes@) <= i32::MAX,
        ensures
            r.0 == total_distance(self.nodes@),
    {
        match self.checked_calculate() {
            Some(value) => value,
            None => PartOneValue(0),
        }
    }
}


/// The test that picks the numbers equal to `v`.
pub open spec fn equals(v: i32) -> spec_fn(i32) -> bool {
    |x: i32| x == v
}

/// How often `v` stands in `s`.
pub open spec fn occurrences(s: Seq<i32>, v: i32) -> nat {
    s.filter(equals(v)).len()
}

/// The number that stands for `value` in a group: itself.
pub fn group_key(value: &i32) -> (key: i32)
    ensures
        key == *value,
{
    *value
}

/// Groups equal numbers with `Itertools::into_group_map_by`, under the key
/// that `group_key` gives. The contract claims what the documentation of that
/// method says: each number that occurs is a key, no other is, and a key maps
/// to the numbers equal to it, in the order in which they came.
#[verifier::external_body]
fn group_by_value(values: Vec<i32>) -> (groups: HashMap<i32, Vec<i32>>)
    ensures
        forall|k: i32| groups@.contains_key(k) <==> values@.contains(k),
        forall|k: i32| #[trigger] groups@.contains_key(k) ==> groups@[k]@ == values@.filter(equals(k)),
{
    values.into_iter().into_group_map_by(|x| group_key(x))
}

/// A number that does not stand in `s` occurs in it no time.
pub proof fn lemma_absent_occurs_never(s: Seq<i32>, v: i32)
    requires
        !s.contains(v),
    ensures
        occurrences(s, v) == 0,
    decreases s.len(),
{
    reveal(Seq::filter);
    if s.len() > 0 {
        assert(s.last() == s[s.len() - 1]);
        assert forall|x: i32| s.drop_last().contains(x) implies s.contains(x) by {
            let j = choose|j: int| 0 <= j < s.drop_last().len() && s.drop_last()[j] == x;
            assert(s[j] == x);
        }
        lemma_absent_occurs_never(s.drop_last(), v);
    }
}

/// How often `v` stands in the right list that was grouped into `groups`.
pub open spec fn score(groups: Map<i32, Vec<i32>>, v: i32) -> nat {
    if groups.contains_key(v) {
        groups[v]@.len()
    } else {
        0
    }
}

/// Adds to `total` what one number of the left list counts for: the number
/// times its score. The score has to fit an `i32`, and so have the product
/// and the new total.
pub open spec fn similarity_step(total: int, value: i32, score: nat) -> Result<int, Error> {
    if score > i32::MAX {
        Err(Error::InvalidTryIntError)
    } else if value * score > i32::MAX || value * score < i32::MIN {
        Err(Error::Overflow)
    } else if total + value * score > i32::MAX || total + value * score < i32::MIN {
        Err(Error::Overflow)
    } else {
        Ok(total + value * score)
    }
}

/// The similarity of the left list to what `scores` says of the right one:
/// each left number times its score, added up from the first on, or the error
/// of the first number at which a step fails.
pub open spec fn similarity(left: Seq<i32>, scores: spec_fn(i32) -> nat) -> Result<int, Error>
    decreases left.len(),
{
    if left.len() == 0 {
        Ok(0)
    } else {
        match similarity(left.drop_last(), scores) {
            Err(e) => Err(e),
            Ok(total) => similarity_step(total, left.last(), scores(left.last())),
        }
    }
}

/// Once a step has failed, the numbers behind it do not change the outcome.
pub proof fn lemma_similarity_error(left: Seq<i32>, scores: spec_fn(i32) -> nat, i: int)
    requires
        0 <= i <= left.len(),
        similarity(left.take(i), scores) is Err,
    ensures
        similarity(left, scores) == similarity(left.take(i), scores),
    decreases left.len() - i,
{
    if i < left.len() {
        assert(left.take(i + 1).drop_last() == left.take(i));
        lemma_similarity_error(left, scores, i + 1);
    } else {
        assert(left.take(i) == left);
    }
}

/// Scores that agree on every number give the same similarity.
pub proof fn lemma_similarity_same_scores(
    left: Seq<i32>,
    a: spec_fn(i32) -> nat,
    b: spec_fn(i32) -> nat,
)
    requires
        forall|v: i32| #[trigger] a(v) == b(v),
    ensures
        similarity(left, a) == similarity(left, b),
    decreases left.len(),
{
    if left.len() > 0 {
        lemma_similarity_same_scores(left.drop_last(), a, b);
    }
}

/// The similarity score of the two lists that the nodes hold.
pub open spec fn total_similarity(nodes: Seq<InputNode>) -> Result<int, Error> {
    similarity(lefts(nodes), |v: i32| occurrences(rights(nodes), v))
}

/// The answer of part two.
#[derive(Debug, PartialEq)]
pub struct PartTwoValue(pub i32);

impl PartTwoValue {
    pub fn value(&self) -> (v: i32)
        ensures
            v == self.0,
    {
        self.0
    }

    /// The similarity score of the two lists that the lines hold.
    pub open spec fn of_lines(lines: Seq<Seq<char>>) -> Result<PartTwoValue, Error> {
        match parse_nodes(lines) {
            Err(e) => Err(e),
            Ok(nodes) => match total_similarity(nodes) {
                Err(e) => Err(e),
                Ok(total) => Ok(PartTwoValue(total as i32)),
            },
        }
    }

    /// Reads the lines and scores the similarity of the two lists.
    pub fn try_from_lines(lines: &Vec<String>) -> (r: Result<PartTwoValue, Error>)
        ensures
            r == Self::of_lines(line_views(lines@)),
    {
        let nodes = match read_nodes(lines) {
            Ok(nodes) => nodes,
            Err(e) => {
                return Err(e);
            },
        };
        let ghost all = nodes@;
        let calculator = SimilarityCalculator::new(nodes);
        proof {
            lemma_similarity_same_scores(
                lefts(all),
                |v: i32| score(calculator.right_groups@, v),
                |v: i32| occurrences(rights(all), v),
            );
        }
        calculator.calculate()
    }
}

/// Scores how alike the two lists are.
#[derive(Debug, PartialEq)]
pub struct SimilarityCalculator {
    pub left_values: Vec<i32>,
    pub right_groups: HashMap<i32, Vec<i32>>,
}

impl SimilarityCalculator {
    /// Keeps the left numbers as they come and groups the right ones by
    /// value.
    pub fn new(input_nodes: Vec<InputNode>) -> (r: Self)
        ensures
            r.left_values@ == lefts(input_nodes@),
            forall|v: i32| score(r.right_groups@, v) == occurrences(rights(input_nodes@), v),
    {
        let n: usize = input_nodes.len();
        let mut left_nodes: Vec<i32> = Vec::new();
        let mut right_nodes: Vec<i32> = Vec::new();
        let mut k: usize = 0;
        while k < n
            invariant
                k <= n,
                n == input_nodes.len(),
                left_nodes@ == lefts(input_nodes@).take(k as int),
                right_nodes@ == rights(input_nodes@).take(k as int),
            decreases n - k,
        {
            left_nodes.push(input_nodes[k].left);
            right_nodes.push(input_nodes[k].right);
            k += 1;
        }
        assert(left_nodes@ == lefts(input_nodes@));
        assert(right_nodes@ == rights(input_nodes@));
        let ghost all_right = right_nodes@;
        let right_groups = group_by_value(right_nodes);
        proof {
            assert forall|v: i32| score(right_groups@, v) == occurrences(all_right, v) by {
                if !right_groups@.contains_key(v) {
                    lemma_absent_occurs_never(all_right, v);
                }
            }
        }
        Self { left_values: left_nodes, right_groups }
    }

    /// The similarity score: each left number times the number of its
    /// occurrences on the right, added up.
    pub fn calculate(&self) -> (r: Result<PartTwoValue, Error>)
        ensures
            match similarity(self.left_values@, |v: i32| score(self.right_groups@, v)) {
                Ok(total) => r == Ok::<PartTwoValue, Error>(PartTwoValue(total as i32)),
                Err(e) => r == Err::<PartTwoValue, Error>(e),
            },
    {
        let ghost scores = |v: i32| score(self.right_groups@, v);
        let n: usize = self.left_values.len();
        let mut total: i32 = 0;
        let mut i: usize = 0;
        while i < n
            invariant
                i <= n,
                n == self.left_values.len(),
                scores == |v: i32| score(self.right_groups@, v),
                similarity(self.left_values@.take(i as int), scores) == Ok::<int, Error>(
                    total as int,
                ),
            decreases n - i,
        {
            let value: i32 = self.left_values[i];
            proof {
                assert(self.left_values@.take(i + 1).drop_last() == self.left_values@.take(
                    i as int,
                ));
                assert(scores(value) == score(self.right_groups@, value));
            }
            let found = self.right_groups.get(&value);
            let score: i32 = match found {
                Some(matches) => {
                    if matches.len() > i32::MAX as usize {
                        proof {
                            lemma_similarity_error(self.left_values@, scores, i + 1);
                        }
                        return Err(Error::InvalidTryIntError);
                    }
                    matches.len() as i32
                },
                None => 0i32,
            };
            let product: i32 = match value.checked_mul(score) {
                Some(p) => p,
                None => {
                    proof {
                        lemma_similarity_error(self.left_values@, scores, i + 1);
                    }
                    return Err(Error::Overflow);
                },
            };
            total = match total.checked_add(product) {
                Some(t) => t,
                None => {
                    proof {
                        lemma_similarity_error(self.left_values@, scores, i + 1);
                    }
                    return Err(Error::Overflow);
                },
            };
            i += 1;
        }
        assert(self.left_values@.take(i as int) == self.left_values@);
        Ok(PartTwoValue(total))
    }
}

/// The input of this day.
pub const DAY_01_FILE: &'static str = "./resources/aoc_24/day_01.txt";

/// Part one of the day, for one input file.
pub struct PartOneProcessor(pub String);

impl PartOneProcessor {
    pub fn new(s: &str) -> (r: Self)
        ensures
            r.0@ == s@,
    {
        Self(s.to_owned())
    }

    /// The answer of part one for the lines of the input.
    pub fn process(&self, lines: &Vec<String>) -> (r: Result<i32, Error>)
        ensures
            r == match PartOneValue::of_lines(line_views(lines@)) {
                Ok(v) => Ok::<i32, Error>(v.0),
                Err(e) => Err(e),
            },
    {
        match PartOneValue::try_from_lines(lines) {
            Ok(p1_value) => Ok(p1_value.value()),
            Err(e) => Err(e),
        }
    }
}

/// Part two of the day, for one input file.
pub struct PartTwoProcessor(pub String);

impl PartTwoProcessor {
    pub fn new(s: &str) -> (r: Self)
        ensures
            r.0@ == s@,
    {
        Self(s.to_owned())
    }

    /// The answer of part two for the lines of the input.
    pub fn process(&self, lines: &Vec<String>) -> (r: Result<i32, Error>)
        ensures
            r == match PartTwoValue::of_lines(line_views(lines@)) {
                Ok(v) => Ok::<i32, Error>(v.0),
                Err(e) => Err(e),
            },
    {
        match PartTwoValue::try_from_lines(lines) {
            Ok(p2_value) => Ok(p2_value.value()),
            Err(e) => Err(e),
        }
    }
}

/// The day: the file that holds its input, and the answers of both parts.
pub struct Day01Processor(pub String);

impl Day01Processor {
    pub fn new() -> (r: Self)
        ensures
            r.0@ == DAY_01_FILE@,
    {
        Self(DAY_01_FILE.to_owned())
    }

    /// The answers of both parts for the lines of the input.
    pub open spec fn answers(lines: Seq<Seq<char>>) -> (Result<i32, Error>, Result<i32, Error>) {
        (
            match PartOneValue::of_lines(lines) {
                Ok(v) => Ok(v.0),
                Err(e) => Err(e),
            },
            match PartTwoValue::of_lines(lines) {
                Ok(v) => Ok(v.0),
                Err(e) => Err(e),
            },
        )
    }

    /// Works out both parts for the lines of the input.
    pub fn process(&self, lines: &Vec<String>) -> (r: (Result<i32, Error>, Result<i32, Error>))
        ensures
            r == Self::answers(line_views(lines@)),
    {
        let part_one = PartOneProcessor::new(self.0.as_str()).process(lines);
        let part_two = PartTwoProcessor::new(self.0.as_str()).process(lines);
        (part_one, part_two)
    }
}

impl Default for Day01Processor {
    fn default() -> (r: Self)
        ensures
            r.0@ == DAY_01_FILE@,
    {
        Self::new()
    }
}


} // verus!
