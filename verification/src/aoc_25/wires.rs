//! The wires that can be laid between the junction boxes, by their lengths:
//! the nearest pair of boxes comes first.

use crate::aoc_25::day_08::{JunctionBox, squared_distance};
use crate::aoc_25::distance::{distance_bits, Distance};
use std::collections::BTreeMap;
use vstd::prelude::*;
use vstd::std_specs::btree::spec_btree_map_iter;
use vstd::std_specs::cmp::OrdSpec;
use vstd::std_specs::iter::IteratorSpec;

verus! {

broadcast use {vstd::std_specs::btree::group_btree_axioms, vstd::laws_cmp::group_laws_cmp};

/// The square of the distance between the boxes `i` and `j`.
pub open spec fn squared_between(boxes: Seq<JunctionBox>, i: int, j: int) -> int {
    squared_distance(boxes[i].0, boxes[j].0)
}

/// The square of the distance between any two of the boxes is small enough
/// for an `i64`.
pub open spec fn measurable(boxes: Seq<JunctionBox>) -> bool {
    forall|i: int, j: int|
        0 <= i < j < boxes.len() ==> #[trigger] squared_between(boxes, i, j) <= i64::MAX
}

/// The place of the distance between the boxes `i` and `j` in the order of
/// all distances.
pub open spec fn pair_key(boxes: Seq<JunctionBox>, i: int, j: int) -> i64 {
    Distance(distance_bits(squared_between(boxes, i, j) as nat) as u64).rank() as i64
}

/// The wires known by their lengths after the box `i` has been measured
/// against the boxes behind it up to `j`, `j` itself left out: a pair takes
/// the place of an earlier pair of the same length.
pub open spec fn with_row(
    boxes: Seq<JunctionBox>,
    known: Map<i64, (usize, usize)>,
    i: int,
    j: int,
) -> Map<i64, (usize, usize)>
    decreases j - i,
{
    if j <= i + 1 {
        known
    } else {
        with_row(boxes, known, i, j - 1).insert(
            pair_key(boxes, i, j - 1),
            (i as usize, (j - 1) as usize),
        )
    }
}

/// The wires known by their lengths after each of the boxes up to `i`, `i`
/// itself left out, has been measured against all the boxes behind it.
pub open spec fn with_rows(boxes: Seq<JunctionBox>, i: int) -> Map<i64, (usize, usize)>
    decreases i,
{
    if i <= 0 {
        Map::empty()
    } else {
        with_row(boxes, with_rows(boxes, i - 1), i - 1, boxes.len() as int)
    }
}

/// The wires that can be laid, by their lengths: of the pairs of boxes that
/// are equally far apart, the last one measured stands for all.
pub open spec fn all_wires(boxes: Seq<JunctionBox>) -> Map<i64, (usize, usize)> {
    with_rows(boxes, boxes.len() - 1)
}

/// The entries stand in the ascending order of their keys, and they are the
/// entries of the map.
pub open spec fn lists_ascending(
    entries: Seq<(i64, (usize, usize))>,
    known: Map<i64, (usize, usize)>,
) -> bool {
    &&& forall|i: int, j: int| 0 <= i < j < entries.len() ==> entries[i].0 < entries[j].0
    &&& forall|i: int|
        0 <= i < entries.len() ==> known.contains_key(#[trigger] entries[i].0) && known[entries[i].0]
            == entries[i].1
    &&& forall|k: i64|
        known.contains_key(k) ==> exists|i: int|
            0 <= i < entries.len() && #[trigger] entries[i] == (k, known[k])
}

/// The entries of the map in the ascending order of their keys.
pub open spec fn ascending(known: Map<i64, (usize, usize)>) -> Seq<(i64, (usize, usize))> {
    choose|entries: Seq<(i64, (usize, usize))>| lists_ascending(entries, known)
}

/// A map has one list of its entries in ascending order.
pub proof fn lemma_listing_unique(
    a: Seq<(i64, (usize, usize))>,
    b: Seq<(i64, (usize, usize))>,
    known: Map<i64, (usize, usize)>,
)
    requires
        lists_ascending(a, known),
        lists_ascending(b, known),
    ensures
        a == b,
    decreases a.len(),
{
    if a.len() == 0 {
        if b.len() > 0 {
            assert(known.contains_key(b[0].0));
            let i = choose|i: int| 0 <= i < a.len() && #[trigger] a[i] == (b[0].0, known[b[0].0]);
        }
        assert(a =~= b);
    } else {
        assert(known.contains_key(a[0].0));
        let p = choose|p: int| 0 <= p < b.len() && #[trigger] b[p] == (a[0].0, known[a[0].0]);
        assert(known.contains_key(b[0].0));
        let q = choose|q: int| 0 <= q < a.len() && #[trigger] a[q] == (b[0].0, known[b[0].0]);
        // the first key of each list is the least key of the map
        assert(p == 0) by {
            if p > 0 {
                assert(b[0].0 < b[p].0);
                if q > 0 {
                    assert(a[0].0 < a[q].0);
                }
            }
        }
        let rest = known.remove(a[0].0);
        let ta = a.skip(1);
        let tb = b.skip(1);
        assert(lists_ascending(ta, rest)) by {
            assert forall|i: int| 0 <= i < ta.len() implies rest.contains_key(#[trigger] ta[i].0)
                && rest[ta[i].0] == ta[i].1 by {
                assert(ta[i] == a[i + 1]);
                assert(a[0].0 < a[i + 1].0);
            }
            assert forall|k: i64| rest.contains_key(k) implies exists|i: int|
                0 <= i < ta.len() && #[trigger] ta[i] == (k, rest[k]) by {
                let j = choose|j: int| 0 <= j < a.len() && #[trigger] a[j] == (k, known[k]);
                assert(j > 0);
                assert(ta[j - 1] == a[j]);
            }
            assert forall|i: int, j: int| 0 <= i < j < ta.len() implies ta[i].0 < ta[j].0 by {
                assert(ta[i] == a[i + 1] && ta[j] == a[j + 1]);
            }
        }
        assert(lists_ascending(tb, rest)) by {
            assert forall|i: int| 0 <= i < tb.len() implies rest.contains_key(#[trigger] tb[i].0)
                && rest[tb[i].0] == tb[i].1 by {
                assert(tb[i] == b[i + 1]);
                assert(b[0].0 < b[i + 1].0);
            }
            assert forall|k: i64| rest.contains_key(k) implies exists|i: int|
                0 <= i < tb.len() && #[trigger] tb[i] == (k, rest[k]) by {
                let j = choose|j: int| 0 <= j < b.len() && #[trigger] b[j] == (k, known[k]);
                assert(j > 0);
                assert(tb[j - 1] == b[j]);
            }
            assert forall|i: int, j: int| 0 <= i < j < tb.len() implies tb[i].0 < tb[j].0 by {
                assert(tb[i] == b[i + 1] && tb[j] == b[j + 1]);
            }
        }
        lemma_listing_unique(ta, tb, rest);
        assert(a =~= b) by {
            assert(a.len() == b.len());
            assert forall|i: int| 0 <= i < a.len() implies a[i] == b[i] by {
                if i > 0 {
                    assert(ta[i - 1] == a[i]);
                    assert(tb[i - 1] == b[i]);
                }
            }
        }
    }
}

/// The list with the entry of `key` and `pair` put in its place: it takes
/// the place of an entry with the same key.
pub open spec fn with_entry(
    entries: Seq<(i64, (usize, usize))>,
    key: i64,
    pair: (usize, usize),
) -> Seq<(i64, (usize, usize))>
    decreases entries.len(),
{
    if entries.len() == 0 {
        seq![(key, pair)]
    } else if entries.last().0 < key {
        entries.push((key, pair))
    } else if entries.last().0 == key {
        entries.drop_last().push((key, pair))
    } else {
        with_entry(entries.drop_last(), key, pair).push(entries.last())
    }
}

/// A list of a map in ascending order, with one entry put in its place, is
/// the list of the map with that entry.
pub proof fn lemma_with_entry_lists(
    entries: Seq<(i64, (usize, usize))>,
    known: Map<i64, (usize, usize)>,
    key: i64,
    pair: (usize, usize),
)
    requires
        lists_ascending(entries, known),
    ensures
        lists_ascending(with_entry(entries, key, pair), known.insert(key, pair)),
    decreases entries.len(),
{
    let out = with_entry(entries, key, pair);
    let after = known.insert(key, pair);
    if entries.len() == 0 {
        assert forall|k: i64| after.contains_key(k) implies exists|i: int|
            0 <= i < out.len() && #[trigger] out[i] == (k, after[k]) by {
            if k != key {
                let i = choose|i: int| 0 <= i < entries.len() && #[trigger] entries[i] == (k, known[k]);
            }
            assert(out[0] == (key, pair));
        }
    } else {
        let last = entries.last();
        let n = entries.len() as int;
        assert(known.contains_key(last.0) && known[last.0] == last.1);
        if last.0 < key {
            assert forall|i: int, j: int| 0 <= i < j < out.len() implies out[i].0 < out[j].0 by {
                if j == n && i < n - 1 {
                    assert(entries[i].0 < entries[n - 1].0);
                }
            }
            assert forall|k: i64| after.contains_key(k) implies exists|i: int|
                0 <= i < out.len() && #[trigger] out[i] == (k, after[k]) by {
                if k != key {
                    let i = choose|i: int|
                        0 <= i < entries.len() && #[trigger] entries[i] == (k, known[k]);
                    assert(out[i] == (k, after[k]));
                } else {
                    assert(out[n] == (key, pair));
                }
            }
        } else if last.0 == key {
            assert forall|i: int, j: int| 0 <= i < j < out.len() implies out[i].0 < out[j].0 by {
                assert(entries[i].0 < entries[j].0);
            }
            assert forall|k: i64| after.contains_key(k) implies exists|i: int|
                0 <= i < out.len() && #[trigger] out[i] == (k, after[k]) by {
                if k != key {
                    let i = choose|i: int|
                        0 <= i < entries.len() && #[trigger] entries[i] == (k, known[k]);
                    assert(i < n - 1);
                    assert(out[i] == (k, after[k]));
                } else {
                    assert(out[n - 1] == (key, pair));
                }
            }
        } else {
            let front = entries.drop_last();
            let rest = known.remove(last.0);
            assert(lists_ascending(front, rest)) by {
                assert forall|i: int| 0 <= i < front.len() implies rest.contains_key(
                    #[trigger] front[i].0,
                ) && rest[front[i].0] == front[i].1 by {
                    assert(front[i] == entries[i]);
                    assert(entries[i].0 < entries[n - 1].0);
                }
                assert forall|k: i64| rest.contains_key(k) implies exists|i: int|
                    0 <= i < front.len() && #[trigger] front[i] == (k, rest[k]) by {
                    let i = choose|i: int|
                        0 <= i < entries.len() && #[trigger] entries[i] == (k, known[k]);
                    assert(front[i] == entries[i]);
                }
                assert forall|i: int, j: int| 0 <= i < j < front.len() implies front[i].0
                    < front[j].0 by {
                    assert(front[i] == entries[i] && front[j] == entries[j]);
                }
            }
            lemma_with_entry_lists(front, rest, key, pair);
            let put = with_entry(front, key, pair);
            let middle = rest.insert(key, pair);
            assert(out == put.push(last));
            assert forall|i: int| 0 <= i < put.len() implies (#[trigger] put[i]).0 < last.0 by {
                assert(middle.contains_key(put[i].0));
                if put[i].0 != key {
                    let j = choose|j: int|
                        0 <= j < entries.len() && #[trigger] entries[j] == (
                            put[i].0,
                            known[put[i].0],
                        );
                    assert(j < n - 1);
                    assert(entries[j].0 < entries[n - 1].0);
                }
            }
            assert forall|i: int, j: int| 0 <= i < j < out.len() implies out[i].0 < out[j].0 by {
                if j < put.len() {
                    assert(put[i].0 < put[j].0);
                } else {
                    assert(out[i] == put[i]);
                }
            }
            assert forall|i: int| 0 <= i < out.len() implies after.contains_key(#[trigger] out[i].0)
                && after[out[i].0] == out[i].1 by {
                if i < put.len() {
                    assert(out[i] == put[i]);
                    assert(middle.contains_key(put[i].0));
                }
            }
            assert forall|k: i64| after.contains_key(k) implies exists|i: int|
                0 <= i < out.len() && #[trigger] out[i] == (k, after[k]) by {
                if k == last.0 {
                    assert(out[put.len() as int] == (k, after[k]));
                } else {
                    assert(middle.contains_key(k));
                    let i = choose|i: int| 0 <= i < put.len() && #[trigger] put[i] == (k, middle[k]);
                    assert(out[i] == put[i]);
                }
            }
        }
    }
}

/// The map has a list of its entries in ascending order.
pub open spec fn has_listing(known: Map<i64, (usize, usize)>) -> bool {
    exists|entries: Seq<(i64, (usize, usize))>| lists_ascending(entries, known)
}

/// The wires known after a box has been measured can be listed in ascending
/// order if those known before can.
proof fn lemma_with_row_listed(
    boxes: Seq<JunctionBox>,
    known: Map<i64, (usize, usize)>,
    i: int,
    j: int,
)
    requires
        has_listing(known),
    ensures
        has_listing(with_row(boxes, known, i, j)),
    decreases j - i,
{
    if j > i + 1 {
        lemma_with_row_listed(boxes, known, i, j - 1);
        let before = with_row(boxes, known, i, j - 1);
        let entries = choose|entries: Seq<(i64, (usize, usize))>| lists_ascending(entries, before);
        let key = pair_key(boxes, i, j - 1);
        let pair = (i as usize, (j - 1) as usize);
        lemma_with_entry_lists(entries, before, key, pair);
        assert(with_row(boxes, known, i, j) == before.insert(key, pair));
        assert(lists_ascending(with_entry(entries, key, pair), with_row(boxes, known, i, j)));
    } else {
        assert(with_row(boxes, known, i, j) == known);
    }
}

/// The wires known after any number of boxes have been measured can be
/// listed in ascending order.
proof fn lemma_with_rows_listed(boxes: Seq<JunctionBox>, i: int)
    ensures
        has_listing(with_rows(boxes, i)),
    decreases i,
{
    if i <= 0 {
        assert(lists_ascending(Seq::<(i64, (usize, usize))>::empty(), with_rows(boxes, i)));
    } else {
        lemma_with_rows_listed(boxes, i - 1);
        lemma_with_row_listed(boxes, with_rows(boxes, i - 1), i - 1, boxes.len() as int);
    }
}

/// The wires that can be laid have a list in ascending order, which holds
/// each length once, with its pair of boxes.
pub proof fn lemma_wires_are_listed(boxes: Seq<JunctionBox>)
    ensures
        lists_ascending(ascending(all_wires(boxes)), all_wires(boxes)),
        wires_by_length(boxes).len() == ascending(all_wires(boxes)).len(),
{
    lemma_with_rows_listed(boxes, boxes.len() - 1);
}

/// The entries of the map, by ascending key.
pub fn ascending_entries(known: &BTreeMap<i64, (usize, usize)>) -> (out: Vec<(i64, (usize, usize))>)
    ensures
        out@ == ascending(known@),
        lists_ascending(out@, known@),
{
    let mut out: Vec<(i64, (usize, usize))> = Vec::new();
    for entry in it: known.iter()
        invariant
            out@.len() == it.index(),
            it.seq() == spec_btree_map_iter(known).remaining(),
            it.seq().no_duplicates(),
            vstd::std_specs::btree::increasing_seq(
                it.seq().map_values(|kv: (&i64, &(usize, usize))| *kv.0),
            ),
            forall|i: int|
                0 <= i < out@.len() ==> #[trigger] out@[i] == (*it.seq()[i].0, *it.seq()[i].1),
    {
        out.push((*entry.0, *entry.1));
    }
    proof {
        let full = spec_btree_map_iter(known).remaining();
        let keys = full.map_values(|kv: (&i64, &(usize, usize))| *kv.0);
        assert forall|i: int, j: int| 0 <= i < j < out@.len() implies out@[i].0 < out@[j].0 by {
            assert(keys[i] == out@[i].0);
            assert(keys[j] == out@[j].0);
            assert(keys[i].cmp_spec(&keys[j]) is Less);
        }
        assert forall|k: i64| known@.contains_key(k) implies exists|i: int|
            0 <= i < out@.len() && #[trigger] out@[i] == (k, known@[k]) by {
            assert(full.contains((&k, &known@[k])));
            let i = choose|i: int| 0 <= i < full.len() && full[i] == (&k, &known@[k]);
            assert(out@[i] == (k, known@[k]));
        }
        assert(lists_ascending(out@, known@));
        lemma_listing_unique(out@, ascending(known@), known@);
    }
    out
}

/// The boxes that the entries wire together, in the order of the entries.
pub open spec fn wires_of(entries: Seq<(i64, (usize, usize))>) -> Seq<(usize, usize)> {
    Seq::new(entries.len(), |i: int| entries[i].1)
}

/// The wires that can be laid between the boxes, the shortest first.
pub open spec fn wires_by_length(boxes: Seq<JunctionBox>) -> Seq<(usize, usize)> {
    wires_of(ascending(all_wires(boxes)))
}

/// How many of the wires at hand are laid where `num_pairs` are asked for:
/// as many as are asked for, and no more than there are.
pub open spec fn wires_to_lay(at_hand: nat, num_pairs: nat) -> nat {
    if num_pairs < at_hand {
        num_pairs
    } else {
        at_hand
    }
}

/// Every wire of the map runs from a box to a later one of the `n` boxes.
pub open spec fn wires_in_range(known: Map<i64, (usize, usize)>, n: nat) -> bool {
    forall|k: i64| #[trigger] known.contains_key(k) ==> known[k].0 < known[k].1 < n
}

/// The pair of the boxes `i` and `j` has been measured when the measuring has
/// come to the box `at` and, for that box, up to the box `upto`.
pub open spec fn measured(n: nat, i: int, j: int, at: int, upto: int) -> bool {
    0 <= i < j < n && (i < at || (i == at && j < upto))
}

/// The pair `a` is measured before the pair `b`.
pub open spec fn measured_before(a: (usize, usize), b: (usize, usize)) -> bool {
    a.0 < b.0 || (a.0 == b.0 && a.1 < b.1)
}

/// The length `k` is that of a pair measured so far.
pub open spec fn is_length_so_far(boxes: Seq<JunctionBox>, k: i64, at: int, upto: int) -> bool {
    exists|i: int, j: int| #[trigger]
        measured(boxes.len(), i, j, at, upto) && pair_key(boxes, i, j) == k
}

/// The map holds the lengths of the pairs measured so far, each with the last
/// pair of that length.
pub open spec fn keeps_last_pairs(
    boxes: Seq<JunctionBox>,
    known: Map<i64, (usize, usize)>,
    at: int,
    upto: int,
) -> bool {
    &&& forall|k: i64| #[trigger] known.contains_key(k) <==> is_length_so_far(boxes, k, at, upto)
    &&& forall|k: i64| #[trigger]
        known.contains_key(k) ==> {
            &&& measured(boxes.len(), known[k].0 as int, known[k].1 as int, at, upto)
            &&& pair_key(boxes, known[k].0 as int, known[k].1 as int) == k
            &&& forall|i: int, j: int| #[trigger]
                measured(boxes.len(), i, j, at, upto) && pair_key(boxes, i, j) == k
                    ==> !measured_before(known[k], (i as usize, j as usize))
        }
}

/// Measuring one box against those behind it keeps the last pair of each
/// length.
pub proof fn lemma_with_row_keeps_last(
    boxes: Seq<JunctionBox>,
    known: Map<i64, (usize, usize)>,
    at: int,
    upto: int,
)
    requires
        0 <= at < upto <= boxes.len() <= usize::MAX,
        keeps_last_pairs(boxes, known, at, at + 1),
    ensures
        keeps_last_pairs(boxes, with_row(boxes, known, at, upto), at, upto),
    decreases upto - at,
{
    if upto > at + 1 {
        lemma_with_row_keeps_last(boxes, known, at, upto - 1);
        let before = with_row(boxes, known, at, upto - 1);
        let key = pair_key(boxes, at, upto - 1);
        let pair = (at as usize, (upto - 1) as usize);
        let after = before.insert(key, pair);
        assert(after == with_row(boxes, known, at, upto));
        assert(measured(boxes.len(), at, upto - 1, at, upto));
        assert forall|k: i64| #[trigger] after.contains_key(k) <==> is_length_so_far(
            boxes,
            k,
            at,
            upto,
        ) by {
            if is_length_so_far(boxes, k, at, upto) {
                let (i, j) = choose|i: int, j: int| #[trigger]
                    measured(boxes.len(), i, j, at, upto) && pair_key(boxes, i, j) == k;
                if !(i == at && j == upto - 1) {
                    assert(measured(boxes.len(), i, j, at, upto - 1));
                    assert(is_length_so_far(boxes, k, at, upto - 1));
                }
            }
            if after.contains_key(k) && k != key {
                assert(is_length_so_far(boxes, k, at, upto - 1));
                let (i, j) = choose|i: int, j: int| #[trigger]
                    measured(boxes.len(), i, j, at, upto - 1) && pair_key(boxes, i, j) == k;
                assert(measured(boxes.len(), i, j, at, upto));
            }
        }
        assert forall|k: i64| #[trigger] after.contains_key(k) implies {
            &&& measured(boxes.len(), after[k].0 as int, after[k].1 as int, at, upto)
            &&& pair_key(boxes, after[k].0 as int, after[k].1 as int) == k
            &&& forall|i: int, j: int| #[trigger]
                measured(boxes.len(), i, j, at, upto) && pair_key(boxes, i, j) == k
                    ==> !measured_before(after[k], (i as usize, j as usize))
        } by {
            if k != key {
                assert(before.contains_key(k));
                assert forall|i: int, j: int| #[trigger]
                    measured(boxes.len(), i, j, at, upto) && pair_key(boxes, i, j)
                    == k implies !measured_before(after[k], (i as usize, j as usize)) by {
                    assert(measured(boxes.len(), i, j, at, upto - 1));
                }
            }
        }
    }
}

/// Measuring every box against those behind it keeps the last pair of each
/// length.
pub proof fn lemma_with_rows_keeps_last(boxes: Seq<JunctionBox>, at: int)
    requires
        0 <= at < boxes.len() <= usize::MAX,
    ensures
        keeps_last_pairs(boxes, with_rows(boxes, at), at, at + 1),
    decreases at,
{
    let n = boxes.len();
    if at > 0 {
        lemma_with_rows_keeps_last(boxes, at - 1);
        lemma_with_row_keeps_last(boxes, with_rows(boxes, at - 1), at - 1, n as int);
        let known = with_rows(boxes, at);
        assert forall|k: i64| #[trigger] known.contains_key(k) <==> is_length_so_far(
            boxes,
            k,
            at,
            at + 1,
        ) by {
            if is_length_so_far(boxes, k, at, at + 1) {
                let (i, j) = choose|i: int, j: int| #[trigger]
                    measured(n, i, j, at, at + 1) && pair_key(boxes, i, j) == k;
                assert(measured(n, i, j, at - 1, n as int));
                assert(is_length_so_far(boxes, k, at - 1, n as int));
            }
            if known.contains_key(k) {
                assert(is_length_so_far(boxes, k, at - 1, n as int));
                let (i, j) = choose|i: int, j: int| #[trigger]
                    measured(n, i, j, at - 1, n as int) && pair_key(boxes, i, j) == k;
                assert(measured(n, i, j, at, at + 1));
            }
        }
        assert forall|k: i64| #[trigger] known.contains_key(k) implies {
            &&& measured(n, known[k].0 as int, known[k].1 as int, at, at + 1)
            &&& pair_key(boxes, known[k].0 as int, known[k].1 as int) == k
            &&& forall|i: int, j: int| #[trigger]
                measured(n, i, j, at, at + 1) && pair_key(boxes, i, j) == k ==> !measured_before(
                    known[k],
                    (i as usize, j as usize),
                )
        } by {
            assert(measured(n, known[k].0 as int, known[k].1 as int, at - 1, n as int));
            assert forall|i: int, j: int| #[trigger]
                measured(n, i, j, at, at + 1) && pair_key(boxes, i, j)
                == k implies !measured_before(known[k], (i as usize, j as usize)) by {
                assert(measured(n, i, j, at - 1, n as int));
            }
        }
    } else {
        let known = with_rows(boxes, 0);
        assert forall|k: i64| #[trigger] known.contains_key(k) <==> is_length_so_far(
            boxes,
            k,
            0,
            1,
        ) by {
            if is_length_so_far(boxes, k, 0, 1) {
                let (i, j) = choose|i: int, j: int| #[trigger]
                    measured(n, i, j, 0, 1) && pair_key(boxes, i, j) == k;
            }
        }
    }
}

/// Of the pairs of boxes that are equally far apart only one can be wired:
/// the map of the wires holds the length of every pair of boxes, and with
/// each length the pair of that length that was measured last. Every box is
/// measured against all the boxes behind it, the boxes in their order.
pub proof fn lemma_wires_keep_last_pairs(boxes: Seq<JunctionBox>)
    requires
        1 <= boxes.len() <= usize::MAX,
    ensures
        forall|i: int, j: int|
            0 <= i < j < boxes.len() ==> all_wires(boxes).contains_key(
                #[trigger] pair_key(boxes, i, j),
            ),
        forall|k: i64| #[trigger]
            all_wires(boxes).contains_key(k) ==> {
                let (a, b) = all_wires(boxes)[k];
                &&& a < b < boxes.len()
                &&& pair_key(boxes, a as int, b as int) == k
                &&& forall|i: int, j: int|
                    0 <= i < j < boxes.len() && #[trigger] pair_key(boxes, i, j) == k
                        ==> !measured_before((a, b), (i as usize, j as usize))
            },
{
    let n = boxes.len();
    let known = all_wires(boxes);
    lemma_with_rows_keeps_last(boxes, n - 1);
    assert forall|i: int, j: int| 0 <= i < j < n implies known.contains_key(
        #[trigger] pair_key(boxes, i, j),
    ) by {
        assert(measured(n, i, j, n - 1, n as int));
        assert(is_length_so_far(boxes, pair_key(boxes, i, j), n - 1, n as int));
    }
    assert forall|k: i64| #[trigger] known.contains_key(k) implies {
        let (a, b) = known[k];
        &&& a < b < n
        &&& pair_key(boxes, a as int, b as int) == k
        &&& forall|i: int, j: int|
            0 <= i < j < n && #[trigger] pair_key(boxes, i, j) == k ==> !measured_before(
                (a, b),
                (i as usize, j as usize),
            )
    } by {
        let (a, b) = known[k];
        assert forall|i: int, j: int|
            0 <= i < j < n && #[trigger] pair_key(boxes, i, j) == k implies !measured_before(
            (a, b),
            (i as usize, j as usize),
        ) by {
            assert(measured(n, i, j, n - 1, n as int));
        }
    }
}

/// No two pairs of boxes are equally far apart, so that no pair takes the
/// place of another one among the wires.
pub open spec fn lengths_differ(boxes: Seq<JunctionBox>) -> bool {
    forall|i: int, j: int, p: int, q: int|
        0 <= i < j < boxes.len() && 0 <= p < q < boxes.len() && (i != p || j != q)
            ==> #[trigger] pair_key(boxes, i, j) != #[trigger] pair_key(boxes, p, q)
}

/// An entry with a key that the list does not hold makes the list longer by
/// one.
proof fn lemma_with_entry_grows(entries: Seq<(i64, (usize, usize))>, key: i64, pair: (usize, usize))
    requires
        forall|p: int| 0 <= p < entries.len() ==> (#[trigger] entries[p]).0 != key,
    ensures
        with_entry(entries, key, pair).len() == entries.len() + 1,
    decreases entries.len(),
{
    if entries.len() > 0 {
        assert(entries[entries.len() - 1].0 != key);
        if entries.last().0 > key {
            let front = entries.drop_last();
            assert forall|p: int| 0 <= p < front.len() implies (#[trigger] front[p]).0 != key by {
                assert(front[p] == entries[p]);
            }
            lemma_with_entry_grows(front, key, pair);
        }
    }
}

/// Where no two pairs of boxes are equally far apart, every box that the box
/// `i` is measured against adds a wire.
proof fn lemma_with_row_counts(boxes: Seq<JunctionBox>, i: int, j: int)
    requires
        0 <= i < j <= boxes.len() <= usize::MAX,
        lengths_differ(boxes),
    ensures
        ascending(with_row(boxes, with_rows(boxes, i), i, j)).len() == ascending(
            with_rows(boxes, i),
        ).len() + (j - i - 1),
    decreases j - i,
{
    let known = with_rows(boxes, i);
    if j > i + 1 {
        lemma_with_row_counts(boxes, i, j - 1);
        let before = with_row(boxes, known, i, j - 1);
        let after = with_row(boxes, known, i, j);
        let key = pair_key(boxes, i, j - 1);
        let pair = (i as usize, (j - 1) as usize);
        assert(after == before.insert(key, pair));
        lemma_with_rows_listed(boxes, i);
        lemma_with_row_listed(boxes, known, i, j - 1);
        let entries = ascending(before);
        assert(lists_ascending(entries, before));
        lemma_with_rows_keeps_last(boxes, i);
        lemma_with_row_keeps_last(boxes, known, i, j - 1);
        if before.contains_key(key) {
            assert(is_length_so_far(boxes, key, i, j - 1));
            let (a, b) = choose|a: int, b: int| #[trigger]
                measured(boxes.len(), a, b, i, j - 1) && pair_key(boxes, a, b) == key;
            assert(a != i || b != j - 1);
            assert(pair_key(boxes, a, b) != pair_key(boxes, i, j - 1));
        }
        assert forall|p: int| 0 <= p < entries.len() implies (#[trigger] entries[p]).0 != key by {
            assert(before.contains_key(entries[p].0));
        }
        lemma_with_entry_lists(entries, before, key, pair);
        lemma_with_entry_grows(entries, key, pair);
        lemma_with_row_listed(boxes, known, i, j);
        lemma_listing_unique(with_entry(entries, key, pair), ascending(after), after);
    } else {
        assert(with_row(boxes, known, i, j) == known);
    }
}

/// Where no two pairs of boxes are equally far apart, the boxes up to `i`
/// have a wire to every box behind them.
proof fn lemma_with_rows_counts(boxes: Seq<JunctionBox>, i: int)
    requires
        0 <= i < boxes.len() <= usize::MAX,
        lengths_differ(boxes),
    ensures
        2 * ascending(with_rows(boxes, i)).len() == i * (2 * boxes.len() - i - 1),
    decreases i,
{
    let n = boxes.len() as int;
    if i > 0 {
        lemma_with_rows_counts(boxes, i - 1);
        lemma_with_row_counts(boxes, i - 1, n);
        let before = ascending(with_rows(boxes, i - 1)).len() as int;
        let after = ascending(with_rows(boxes, i)).len() as int;
        assert(after == before + (n - i));
        assert(2 * after == i * (2 * n - i - 1)) by (nonlinear_arith)
            requires
                after == before + (n - i),
                2 * before == (i - 1) * (2 * n - (i - 1) - 1),
        ;
    } else {
        let none = Seq::<(i64, (usize, usize))>::empty();
        assert(lists_ascending(none, with_rows(boxes, i)));
        lemma_listing_unique(none, ascending(with_rows(boxes, i)), with_rows(boxes, i));
        assert(ascending(with_rows(boxes, i)).len() == 0);
        assert(i * (2 * n - i - 1) == 0) by (nonlinear_arith)
            requires
                i == 0,
        ;
    }
}

/// Where no two pairs of boxes are equally far apart, there are as many wires
/// as pairs of boxes: half of `n * (n - 1)` for `n` boxes.
pub proof fn lemma_a_wire_for_each_pair(boxes: Seq<JunctionBox>)
    requires
        1 <= boxes.len() <= usize::MAX,
        lengths_differ(boxes),
    ensures
        2 * wires_by_length(boxes).len() == boxes.len() * (boxes.len() - 1),
{
    let n = boxes.len() as int;
    lemma_with_rows_counts(boxes, n - 1);
    assert((n - 1) * (2 * n - (n - 1) - 1) == n * (n - 1)) by (nonlinear_arith);
}

/// The nearer pair comes first: a pair of boxes that is no farther apart than
/// another one stands no later in the order of the wires.
pub proof fn lemma_nearer_pair_comes_first(boxes: Seq<JunctionBox>, i: int, j: int, k: int, l: int)
    requires
        squared_between(boxes, i, j) <= squared_between(boxes, k, l) <= i64::MAX,
    ensures
        pair_key(boxes, i, j) <= pair_key(boxes, k, l),
{
    let near = squared_between(boxes, i, j);
    let far = squared_between(boxes, k, l);
    assert(near >= 0) by (nonlinear_arith)
        requires
            near == squared_distance(boxes[i].0, boxes[j].0),
    ;
    crate::aoc_25::distance::lemma_distance_bits_grow(near as nat, far as nat);
}

} // verus!
