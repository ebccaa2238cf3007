//! The circuits as a partition of the junction boxes: every box is in one
//! circuit, the sizes of the circuits add up to the number of the boxes, and
//! every wire that joins two circuits leaves one circuit fewer.

use crate::aoc_25::circuits::{circuit_size, last_merge, merges};
use crate::aoc_25::day_08::{closing_wire, JunctionBox};
use crate::aoc_25::wires::{
    all_wires, ascending, lemma_wires_are_listed, lemma_wires_keep_last_pairs, lengths_differ,
    pair_key, wires_by_length,
};
use crate::aoc_25::wiring::{
    lemma_linked_by_wire, lemma_linked_reflexive, lemma_linked_symmetric,
    lemma_linked_transitive, linked,
};
use vstd::prelude::*;

verus! {

/// The box `a` is the first of its circuit after the first `k` wires: no box
/// before it is in one circuit with it.
pub open spec fn leads(wires: Seq<(usize, usize)>, k: nat, a: int) -> bool {
    forall|b: int| 0 <= b < a ==> !linked(wires, k, b, a)
}

/// The number of circuits that the first `k` wires make of the first `n`
/// boxes: every circuit is counted by the first of its boxes.
pub open spec fn circuit_count(wires: Seq<(usize, usize)>, k: nat, n: nat) -> nat
    decreases n,
{
    if n == 0 {
        0
    } else {
        circuit_count(wires, k, (n - 1) as nat) + if leads(wires, k, n - 1) {
            1nat
        } else {
            0nat
        }
    }
}

/// The number of wires among the first `k` that joined two circuits.
pub open spec fn merge_count(wires: Seq<(usize, usize)>, k: nat) -> nat
    decreases k,
{
    if k == 0 {
        0
    } else {
        merge_count(wires, (k - 1) as nat) + if merges(wires, (k - 1) as nat) {
            1nat
        } else {
            0nat
        }
    }
}

/// The sizes of the circuits whose first boxes are among the first `m` boxes,
/// added up.
pub open spec fn sizes_total(wires: Seq<(usize, usize)>, k: nat, n: nat, m: nat) -> nat
    decreases m,
{
    if m == 0 {
        0
    } else {
        sizes_total(wires, k, n, (m - 1) as nat) + if leads(wires, k, m - 1) {
            circuit_size(wires, k, n, m - 1)
        } else {
            0nat
        }
    }
}

/// The first box from `from` on that is in one circuit with `x`.
pub open spec fn first_from(wires: Seq<(usize, usize)>, k: nat, x: int, from: int) -> int
    decreases x - from,
{
    if from >= x {
        x
    } else if linked(wires, k, from, x) {
        from
    } else {
        first_from(wires, k, x, from + 1)
    }
}

/// The first box of the circuit of `x`.
pub open spec fn first_of(wires: Seq<(usize, usize)>, k: nat, x: int) -> int {
    first_from(wires, k, x, 0)
}

/// The search for the first box of a circuit finds a box of the circuit that
/// no box of the circuit stands before, if it starts before all of them.
proof fn lemma_first_from(wires: Seq<(usize, usize)>, k: nat, x: int, from: int)
    requires
        0 <= from <= x,
        forall|b: int| 0 <= b < from ==> !linked(wires, k, b, x),
    ensures
        from <= first_from(wires, k, x, from) <= x,
        linked(wires, k, first_from(wires, k, x, from), x),
        forall|b: int| 0 <= b < first_from(wires, k, x, from) ==> !linked(wires, k, b, x),
    decreases x - from,
{
    if from >= x {
        lemma_linked_reflexive(wires, k, x);
    } else if !linked(wires, k, from, x) {
        lemma_first_from(wires, k, x, from + 1);
    }
}

/// Every box has a first box of its circuit: a box that is in one circuit
/// with it, that no box of the circuit stands before, and that is no later
/// than the box itself.
pub proof fn lemma_first_of(wires: Seq<(usize, usize)>, k: nat, x: int)
    requires
        0 <= x,
    ensures
        0 <= first_of(wires, k, x) <= x,
        linked(wires, k, first_of(wires, k, x), x),
        leads(wires, k, first_of(wires, k, x)),
        forall|b: int| 0 <= b < first_of(wires, k, x) ==> !linked(wires, k, b, x),
{
    lemma_first_from(wires, k, x, 0);
    let f = first_of(wires, k, x);
    assert forall|b: int| 0 <= b < f implies !linked(wires, k, b, f) by {
        if linked(wires, k, b, f) {
            lemma_linked_transitive(wires, k, b, f, x);
        }
    }
}

/// A circuit has one first box: a box that no box of its circuit stands
/// before is the first box of the circuit of every box that it is connected
/// to.
pub proof fn lemma_first_is_unique(wires: Seq<(usize, usize)>, k: nat, a: int, x: int)
    requires
        0 <= a,
        0 <= x,
        leads(wires, k, a),
        linked(wires, k, a, x),
    ensures
        a == first_of(wires, k, x),
{
    lemma_first_of(wires, k, x);
    let f = first_of(wires, k, x);
    lemma_linked_symmetric(wires, k, f, x);
    lemma_linked_transitive(wires, k, a, x, f);
    lemma_linked_symmetric(wires, k, a, f);
}

/// Where the same boxes are the first of their circuits, there are as many
/// circuits.
proof fn lemma_first_boxes_kept(wires: Seq<(usize, usize)>, before: nat, after: nat, m: nat)
    requires
        forall|a: int| 0 <= a < m ==> (leads(wires, after, a) <==> leads(wires, before, a)),
    ensures
        circuit_count(wires, after, m) == circuit_count(wires, before, m),
    decreases m,
{
    if m > 0 {
        lemma_first_boxes_kept(wires, before, after, (m - 1) as nat);
    }
}

/// Where one box is no longer the first of its circuit and nothing else has
/// changed, there is one circuit fewer.
proof fn lemma_first_box_lost(wires: Seq<(usize, usize)>, before: nat, after: nat, m: nat, c: int)
    requires
        0 <= c,
        leads(wires, before, c),
        forall|a: int|
            0 <= a < m ==> (leads(wires, after, a) <==> leads(wires, before, a) && a != c),
    ensures
        circuit_count(wires, after, m) + (if c < m {
            1nat
        } else {
            0nat
        }) == circuit_count(wires, before, m),
    decreases m,
{
    if m > 0 {
        lemma_first_box_lost(wires, before, after, (m - 1) as nat, c);
    }
}

/// With no wire laid every box is a circuit.
pub proof fn lemma_no_wire_no_circuit_joined(wires: Seq<(usize, usize)>, n: nat)
    ensures
        circuit_count(wires, 0, n) == n,
    decreases n,
{
    if n > 0 {
        lemma_no_wire_no_circuit_joined(wires, (n - 1) as nat);
        assert(leads(wires, 0, n - 1));
    }
}

/// A wire between two boxes of one circuit leaves the circuits as they are;
/// a wire that joins two circuits makes one of them, so that there is one
/// circuit fewer.
pub proof fn lemma_wire_joins_two_circuits(wires: Seq<(usize, usize)>, k: nat, n: nat)
    requires
        wires[k as int].0 < n,
        wires[k as int].1 < n,
    ensures
        circuit_count(wires, (k + 1) as nat, n) + (if merges(wires, k) {
            1nat
        } else {
            0nat
        }) == circuit_count(wires, k, n),
{
    let after = (k + 1) as nat;
    let x = wires[k as int].0 as int;
    let y = wires[k as int].1 as int;
    assert forall|a: int, b: int| linked(wires, k, a, b) implies linked(wires, after, a, b) by {}
    if linked(wires, k, x, y) {
        lemma_linked_symmetric(wires, k, x, y);
        assert forall|a: int, b: int| linked(wires, after, a, b) implies linked(wires, k, a, b) by {
            if linked(wires, k, a, b) {
            } else if linked(wires, k, a, x) && linked(wires, k, y, b) {
                lemma_linked_transitive(wires, k, a, x, y);
                lemma_linked_transitive(wires, k, a, y, b);
            } else {
                lemma_linked_transitive(wires, k, a, y, x);
                lemma_linked_transitive(wires, k, a, x, b);
            }
        }
        assert forall|a: int| 0 <= a < n implies (leads(wires, after, a) <==> leads(wires, k, a)) by {
            assert forall|b: int| 0 <= b < a implies (linked(wires, after, b, a) <==> linked(
                wires,
                k,
                b,
                a,
            )) by {}
        }
        lemma_first_boxes_kept(wires, k, after, n);
    } else {
        lemma_first_of(wires, k, x);
        lemma_first_of(wires, k, y);
        let fx = first_of(wires, k, x);
        let fy = first_of(wires, k, y);
        lemma_linked_symmetric(wires, k, fx, x);
        lemma_linked_symmetric(wires, k, fy, y);
        if fx == fy {
            lemma_linked_transitive(wires, k, x, fx, y);
        }
        let c = if fx < fy {
            fy
        } else {
            fx
        };
        let d = if fx < fy {
            fx
        } else {
            fy
        };
        assert(linked(wires, after, d, c));
        assert forall|a: int| 0 <= a < n implies (leads(wires, after, a) <==> leads(wires, k, a) && a
            != c) by {
            if leads(wires, k, a) && a != c {
                assert forall|b: int| 0 <= b < a implies !linked(wires, after, b, a) by {
                    if linked(wires, k, b, a) {
                    } else if linked(wires, k, b, x) && linked(wires, k, y, a) {
                        lemma_linked_symmetric(wires, k, y, a);
                        lemma_first_is_unique(wires, k, a, y);
                    } else if linked(wires, k, b, y) && linked(wires, k, x, a) {
                        lemma_linked_symmetric(wires, k, x, a);
                        lemma_first_is_unique(wires, k, a, x);
                    }
                }
            }
        }
        lemma_first_box_lost(wires, k, after, n, c);
    }
}

/// The wires that joined two circuits and the circuits that are left make up
/// the number of the boxes: there are `n` circuits before the first wire, and
/// one fewer for each wire that joins two.
pub proof fn lemma_merges_and_circuits(wires: Seq<(usize, usize)>, k: nat, n: nat)
    requires
        forall|j: int| 0 <= j < k ==> (#[trigger] wires[j]).0 < n && wires[j].1 < n,
    ensures
        merge_count(wires, k) + circuit_count(wires, k, n) == n,
    decreases k,
{
    if k == 0 {
        lemma_no_wire_no_circuit_joined(wires, n);
    } else {
        lemma_merges_and_circuits(wires, (k - 1) as nat, n);
        assert(wires[k - 1].0 < n);
        lemma_wire_joins_two_circuits(wires, (k - 1) as nat, n);
    }
}

/// Where the wires have made one circuit of all the boxes, all but one of
/// the boxes were joined to it by a wire of their own: one wire fewer than
/// there are boxes joined two circuits.
pub proof fn lemma_one_circuit_by_all_but_one_wire(wires: Seq<(usize, usize)>, k: nat, n: nat)
    requires
        n >= 1,
        forall|j: int| 0 <= j < k ==> (#[trigger] wires[j]).0 < n && wires[j].1 < n,
        forall|a: int, b: int| 0 <= a < n && 0 <= b < n ==> linked(wires, k, a, b),
    ensures
        circuit_count(wires, k, n) == 1,
        merge_count(wires, k) == n - 1,
{
    lemma_merges_and_circuits(wires, k, n);
    lemma_one_circuit(wires, k, n, n);
}

/// Where all the boxes are connected, only the first box is the first of its
/// circuit.
proof fn lemma_one_circuit(wires: Seq<(usize, usize)>, k: nat, n: nat, m: nat)
    requires
        1 <= m <= n,
        forall|a: int, b: int| 0 <= a < n && 0 <= b < n ==> linked(wires, k, a, b),
    ensures
        circuit_count(wires, k, m) == 1,
    decreases m,
{
    if m == 1 {
        assert(circuit_count(wires, k, 0) == 0);
        assert(leads(wires, k, 0));
    } else {
        lemma_one_circuit(wires, k, n, (m - 1) as nat);
        assert(linked(wires, k, 0, m - 1));
    }
}

/// The number of boxes among the first `n` whose circuit has its first box
/// before the box `m`.
pub open spec fn led_before(wires: Seq<(usize, usize)>, k: nat, n: nat, m: int) -> nat
    decreases n,
{
    if n == 0 {
        0
    } else {
        led_before(wires, k, (n - 1) as nat, m) + if first_of(wires, k, n - 1) < m {
            1nat
        } else {
            0nat
        }
    }
}

/// One box more to lead adds the boxes of its circuit, if it is the first of
/// one.
proof fn lemma_led_before_next(wires: Seq<(usize, usize)>, k: nat, n: nat, m: int)
    requires
        0 <= m,
    ensures
        led_before(wires, k, n, m + 1) == led_before(wires, k, n, m) + if leads(wires, k, m) {
            circuit_size(wires, k, n, m)
        } else {
            0nat
        },
    decreases n,
{
    if n > 0 {
        lemma_led_before_next(wires, k, (n - 1) as nat, m);
        let b = n - 1;
        lemma_first_of(wires, k, b);
        if leads(wires, k, m) {
            if linked(wires, k, m, b) {
                lemma_first_is_unique(wires, k, m, b);
            }
        }
    }
}

/// No circuit has its first box before the first box, and every box has the
/// first box of its circuit no later than itself.
proof fn lemma_led_before_ends(wires: Seq<(usize, usize)>, k: nat, n: nat, m: int)
    ensures
        m <= 0 ==> led_before(wires, k, n, m) == 0,
        m >= n ==> led_before(wires, k, n, m) == n,
    decreases n,
{
    if n > 0 {
        lemma_led_before_ends(wires, k, (n - 1) as nat, m);
        lemma_first_of(wires, k, n - 1);
    }
}

/// The sizes of the circuits count every box with the first box of its
/// circuit.
proof fn lemma_sizes_are_led(wires: Seq<(usize, usize)>, k: nat, n: nat, m: nat)
    ensures
        sizes_total(wires, k, n, m) == led_before(wires, k, n, m as int),
    decreases m,
{
    if m == 0 {
        lemma_led_before_ends(wires, k, n, 0);
    } else {
        lemma_sizes_are_led(wires, k, n, (m - 1) as nat);
        lemma_led_before_next(wires, k, n, m - 1);
    }
}

/// The sizes of the circuits add up to the number of the boxes, whatever
/// wires have been laid: every box is in one circuit and in no other.
pub proof fn lemma_sizes_add_up(wires: Seq<(usize, usize)>, k: nat, n: nat)
    ensures
        sizes_total(wires, k, n, n) == n,
{
    lemma_sizes_are_led(wires, k, n, n);
    lemma_led_before_ends(wires, k, n, n as int);
}

/// The wire `j` is the last of the first `k` wires that joined two circuits.
pub open spec fn is_last_merge(wires: Seq<(usize, usize)>, k: nat, j: nat) -> bool {
    &&& j < k
    &&& merges(wires, j)
    &&& forall|l: nat| j < l < k ==> !merges(wires, l)
}

/// Where a wire among the first `k` has joined two circuits, the last one
/// that did is one of them, and no wire behind it joined two.
pub proof fn lemma_last_merge_is_a_merge(wires: Seq<(usize, usize)>, k: nat)
    requires
        merge_count(wires, k) > 0,
    ensures
        exists|j: nat| #[trigger] is_last_merge(wires, k, j) && last_merge(wires, k) == wires[j as int],
    decreases k,
{
    if k > 0 {
        if merges(wires, (k - 1) as nat) {
            assert(is_last_merge(wires, k, (k - 1) as nat));
        } else {
            lemma_last_merge_is_a_merge(wires, (k - 1) as nat);
            let j = choose|j: nat| #[trigger]
                is_last_merge(wires, (k - 1) as nat, j) && last_merge(wires, (k - 1) as nat)
                    == wires[j as int];
            assert(is_last_merge(wires, k, j));
        }
    }
}

/// The wires come by their lengths: each runs from a box to a later one,
/// and a wire that is laid before another one is shorter than it.
pub proof fn lemma_wires_come_by_length(boxes: Seq<JunctionBox>)
    requires
        1 <= boxes.len() <= usize::MAX,
    ensures
        forall|p: int|
            0 <= p < wires_by_length(boxes).len() ==> (#[trigger] wires_by_length(boxes)[p]).0
                < wires_by_length(boxes)[p].1 < boxes.len(),
        forall|p: int, q: int|
            0 <= p < q < wires_by_length(boxes).len() ==> pair_key(
                boxes,
                (#[trigger] wires_by_length(boxes)[p]).0 as int,
                wires_by_length(boxes)[p].1 as int,
            ) < pair_key(
                boxes,
                (#[trigger] wires_by_length(boxes)[q]).0 as int,
                wires_by_length(boxes)[q].1 as int,
            ),
{
    let known = all_wires(boxes);
    let entries = ascending(known);
    let wires = wires_by_length(boxes);
    lemma_wires_keep_last_pairs(boxes);
    lemma_wires_are_listed(boxes);
    assert forall|p: int| 0 <= p < wires.len() implies (#[trigger] wires[p]).0 < wires[p].1
        < boxes.len() && pair_key(boxes, wires[p].0 as int, wires[p].1 as int) == entries[p].0 by {
        assert(known.contains_key(entries[p].0));
    }
    assert forall|p: int, q: int| 0 <= p < q < wires.len() implies pair_key(
        boxes,
        (#[trigger] wires[p]).0 as int,
        wires[p].1 as int,
    ) < pair_key(boxes, (#[trigger] wires[q]).0 as int, wires[q].1 as int) by {
        assert(entries[p].0 < entries[q].0);
    }
}

/// A wire runs between the boxes `i` and `j`.
pub open spec fn is_wired(boxes: Seq<JunctionBox>, i: int, j: int) -> bool {
    exists|p: int|
        0 <= p < wires_by_length(boxes).len() && #[trigger] wires_by_length(boxes)[p] == (
            i as usize,
            j as usize,
        )
}

/// Where no two pairs of boxes are equally far apart, every pair of boxes has
/// its wire.
pub proof fn lemma_every_pair_is_wired(boxes: Seq<JunctionBox>)
    requires
        1 <= boxes.len() <= usize::MAX,
        lengths_differ(boxes),
    ensures
        forall|i: int, j: int| 0 <= i < j < boxes.len() ==> #[trigger] is_wired(boxes, i, j),
{
    let known = all_wires(boxes);
    let entries = ascending(known);
    let wires = wires_by_length(boxes);
    lemma_wires_keep_last_pairs(boxes);
    lemma_wires_are_listed(boxes);
    assert forall|i: int, j: int| 0 <= i < j < boxes.len() implies #[trigger] is_wired(
        boxes,
        i,
        j,
    ) by {
        let key = pair_key(boxes, i, j);
        assert(known.contains_key(key));
        let pair = known[key];
        assert(pair_key(boxes, pair.0 as int, pair.1 as int) == key);
        assert(pair.0 == i && pair.1 == j);
        let p = choose|p: int| 0 <= p < entries.len() && #[trigger] entries[p] == (key, known[key]);
        assert(wires[p] == (i as usize, j as usize));
    }
}

/// Where no two pairs of boxes are equally far apart, all the wires laid
/// leave the boxes in one circuit, and one wire fewer than there are boxes
/// has joined two circuits.
pub proof fn lemma_all_wires_make_one_circuit(boxes: Seq<JunctionBox>)
    requires
        1 <= boxes.len() <= usize::MAX,
        lengths_differ(boxes),
    ensures
        forall|a: int, b: int|
            0 <= a < boxes.len() && 0 <= b < boxes.len() ==> linked(
                wires_by_length(boxes),
                wires_by_length(boxes).len(),
                a,
                b,
            ),
        circuit_count(wires_by_length(boxes), wires_by_length(boxes).len(), boxes.len()) == 1,
        merge_count(wires_by_length(boxes), wires_by_length(boxes).len()) == boxes.len() - 1,
{
    let n = boxes.len();
    let wires = wires_by_length(boxes);
    let k = wires.len();
    lemma_wires_come_by_length(boxes);
    lemma_every_pair_is_wired(boxes);
    assert forall|a: int, b: int| 0 <= a < n && 0 <= b < n implies linked(wires, k, a, b) by {
        if a == b {
            lemma_linked_reflexive(wires, k, a);
        } else {
            let i = if a < b {
                a
            } else {
                b
            };
            let j = if a < b {
                b
            } else {
                a
            };
            assert(is_wired(boxes, i, j));
            let p = choose|p: int| 0 <= p < wires.len() && #[trigger] wires[p] == (i as usize, j as usize);
            lemma_linked_by_wire(wires, k, p);
            if a > b {
                lemma_linked_symmetric(wires, k, i, j);
            }
        }
    }
    lemma_one_circuit_by_all_but_one_wire(wires, k, n);
}

/// Where there are two boxes or more and no two pairs of them are equally
/// far apart, the wire that the value of the whole wiring is taken from is a
/// wire that joined two circuits, and the last one that did.
pub proof fn lemma_closing_wire_joins(boxes: Seq<JunctionBox>)
    requires
        2 <= boxes.len() <= usize::MAX,
        lengths_differ(boxes),
    ensures
        exists|j: nat| #[trigger]
            is_last_merge(wires_by_length(boxes), wires_by_length(boxes).len(), j) && closing_wire(
                boxes,
            ) == wires_by_length(boxes)[j as int],
{
    lemma_all_wires_make_one_circuit(boxes);
    lemma_last_merge_is_a_merge(wires_by_length(boxes), wires_by_length(boxes).len());
}

} // verus!
