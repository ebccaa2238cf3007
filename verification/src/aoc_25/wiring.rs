//! Which junction boxes are wired together: the sets of boxes are kept by the
//! `disjoint` crate, and what it is trusted to do is stated here, together
//! with what follows from it.

use crate::aoc_25::day_08::JunctionBox;
use disjoint::DisjointSetVec;
use vstd::prelude::*;

verus! {

/// The collection `DisjointSetVec` of the `disjoint` crate. Nothing is known
/// here of what is inside it but what `roots` names.
#[verifier::external_type_specification]
#[verifier::external_body]
#[verifier::reject_recursive_types(T)]
pub struct ExDisjointSetVec<T>(DisjointSetVec<T>);

/// For each element of the set the element that stands for its subset: what
/// `DisjointSetVec::root_of` returns for it.
pub uninterp spec fn roots(set: DisjointSetVec<JunctionBox>) -> Seq<int>;

/// The roots after the subsets of `a` and `b` have been made one, where
/// `before` holds the roots as they were: the elements of both subsets have
/// one of the two old roots as their root now, and the other elements keep
/// theirs.
pub open spec fn roots_joined(before: Seq<int>, after: Seq<int>, a: int, b: int) -> bool {
    &&& after.len() == before.len()
    &&& after[a] == before[a] || after[a] == before[b]
    &&& forall|k: int|
        0 <= k < before.len() ==> #[trigger] after[k] == if before[k] == before[a] || before[k]
            == before[b] {
            after[a]
        } else {
            before[k]
        }
}

/// Makes a set of the boxes with `DisjointSetVec::from`. The contract claims
/// that the set has one element for each box, and that every element is in a
/// subset of its own.
#[verifier::external_body]
pub(crate) fn wiring_of(boxes: Vec<JunctionBox>) -> (set: DisjointSetVec<JunctionBox>)
    ensures
        roots(set).len() == boxes@.len(),
        forall|i: int| 0 <= i < boxes@.len() ==> #[trigger] roots(set)[i] == i,
{
    DisjointSetVec::from(boxes)
}

/// Joins the subsets of two elements with `DisjointSetVec::join`, which must
/// not be called with an element that the set does not hold. The contract
/// claims that the call returns whether the two were in different subsets;
/// that nothing changes if they were not; and that otherwise the elements of
/// both subsets get one of the two old roots as their root while all others
/// keep theirs.
#[verifier::external_body]
pub(crate) fn join(set: &mut DisjointSetVec<JunctionBox>, first: usize, second: usize) -> (joined: bool)
    requires
        first < roots(*old(set)).len(),
        second < roots(*old(set)).len(),
    ensures
        joined == (roots(*old(set))[first as int] != roots(*old(set))[second as int]),
        !joined ==> roots(*final(set)) == roots(*old(set)),
        joined ==> roots_joined(roots(*old(set)), roots(*final(set)), first as int, second as int),
{
    set.join(first, second)
}

/// Asks `DisjointSetVec::root_of` for the root of an element, which the set
/// has to hold. The contract claims no more than that this is the root that
/// `roots` speaks of.
#[verifier::external_body]
pub(crate) fn root_of(set: &DisjointSetVec<JunctionBox>, child: usize) -> (root: usize)
    requires
        child < roots(*set).len(),
    ensures
        root == roots(*set)[child as int],
{
    set.root_of(child)
}

/// The number of elements of the set, which is the length of the slice that
/// a `DisjointSetVec` hands out.
#[verifier::external_body]
pub(crate) fn size_of(set: &DisjointSetVec<JunctionBox>) -> (n: usize)
    ensures
        n == roots(*set).len(),
{
    set.len()
}

/// Whether `a` and `b` are in one circuit after the first `k` of the wires:
/// with no wire a box is connected to itself only, and a wire connects all
/// that was connected to its one end with all that was connected to its other
/// end.
pub open spec fn linked(wires: Seq<(usize, usize)>, k: nat, a: int, b: int) -> bool
    decreases k,
{
    if k == 0 {
        a == b
    } else {
        let before = (k - 1) as nat;
        let (x, y) = wires[k - 1];
        ||| linked(wires, before, a, b)
        ||| linked(wires, before, a, x as int) && linked(wires, before, y as int, b)
        ||| linked(wires, before, a, y as int) && linked(wires, before, x as int, b)
    }
}

/// The roots tell which boxes the first `k` wires connect: two boxes have the
/// same root exactly if they are in one circuit.
pub open spec fn roots_follow(r: Seq<int>, wires: Seq<(usize, usize)>, k: nat) -> bool {
    forall|a: int, b: int|
        0 <= a < r.len() && 0 <= b < r.len() ==> (#[trigger] r[a] == #[trigger] r[b] <==> linked(
            wires,
            k,
            a,
            b,
        ))
}

/// A wire keeps the roots in step with the circuits, whether it joined two of
/// them or found both ends in one.
pub proof fn lemma_roots_follow_step(
    before: Seq<int>,
    after: Seq<int>,
    wires: Seq<(usize, usize)>,
    k: nat,
)
    requires
        k < wires.len(),
        wires[k as int].0 < before.len(),
        wires[k as int].1 < before.len(),
        roots_follow(before, wires, k),
        if before[wires[k as int].0 as int] != before[wires[k as int].1 as int] {
            roots_joined(before, after, wires[k as int].0 as int, wires[k as int].1 as int)
        } else {
            after == before
        },
    ensures
        roots_follow(after, wires, (k + 1) as nat),
{
    let x = wires[k as int].0 as int;
    let y = wires[k as int].1 as int;
    assert forall|a: int, b: int| 0 <= a < after.len() && 0 <= b < after.len() implies (
    #[trigger] after[a] == #[trigger] after[b] <==> linked(wires, (k + 1) as nat, a, b)) by {
        assert(before[a] == before[b] <==> linked(wires, k, a, b));
        assert(before[a] == before[x] <==> linked(wires, k, a, x));
        assert(before[a] == before[y] <==> linked(wires, k, a, y));
        assert(before[x] == before[b] <==> linked(wires, k, x, b));
        assert(before[y] == before[b] <==> linked(wires, k, y, b));
        assert(before[x] == before[y] <==> linked(wires, k, x, y));
    }
}

/// What one join does to the roots: it makes one subset of two, or leaves
/// all as it is where both elements are in one subset already.
pub open spec fn join_step(before: Seq<int>, after: Seq<int>, a: int, b: int) -> bool {
    if before[a] != before[b] {
        roots_joined(before, after, a, b)
    } else {
        after == before
    }
}

/// Every element has an element as its root, and a root is its own root: to
/// look up the root of a root leads no further.
pub open spec fn roots_settled(r: Seq<int>) -> bool {
    forall|a: int| 0 <= a < r.len() ==> 0 <= #[trigger] r[a] < r.len() && r[r[a]] == r[a]
}

/// A join leaves every element with an element as its root, and every root
/// its own root.
pub proof fn lemma_roots_settled_step(before: Seq<int>, after: Seq<int>, x: int, y: int)
    requires
        roots_settled(before),
        0 <= x < before.len(),
        0 <= y < before.len(),
        join_step(before, after, x, y),
    ensures
        roots_settled(after),
{
    if before[x] != before[y] {
        let merged = after[x];
        assert(before[before[x]] == before[x]);
        assert(before[before[y]] == before[y]);
        assert(after[merged] == merged);
        assert forall|a: int| 0 <= a < after.len() implies 0 <= #[trigger] after[a] < after.len()
            && after[after[a]] == after[a] by {
            assert(before[before[a]] == before[a]);
            if !(before[a] == before[x] || before[a] == before[y]) {
                assert(after[before[a]] == before[before[a]]);
            }
        }
    }
}

/// With no wire every box is its own circuit, as every element is its own
/// root.
pub proof fn lemma_roots_follow_start(r: Seq<int>, wires: Seq<(usize, usize)>)
    requires
        forall|i: int| 0 <= i < r.len() ==> #[trigger] r[i] == i,
    ensures
        roots_follow(r, wires, 0),
{
}

/// Every box is connected to itself.
pub proof fn lemma_linked_reflexive(wires: Seq<(usize, usize)>, k: nat, a: int)
    ensures
        linked(wires, k, a, a),
    decreases k,
{
    if k > 0 {
        lemma_linked_reflexive(wires, (k - 1) as nat, a);
    }
}

/// A box that is connected to another one has that one connected to it.
pub proof fn lemma_linked_symmetric(wires: Seq<(usize, usize)>, k: nat, a: int, b: int)
    requires
        linked(wires, k, a, b),
    ensures
        linked(wires, k, b, a),
    decreases k,
{
    if k > 0 {
        let before = (k - 1) as nat;
        let x = wires[k - 1].0 as int;
        let y = wires[k - 1].1 as int;
        if linked(wires, before, a, b) {
            lemma_linked_symmetric(wires, before, a, b);
        } else if linked(wires, before, a, x) && linked(wires, before, y, b) {
            lemma_linked_symmetric(wires, before, a, x);
            lemma_linked_symmetric(wires, before, y, b);
        } else {
            lemma_linked_symmetric(wires, before, a, y);
            lemma_linked_symmetric(wires, before, x, b);
        }
    }
}

/// Boxes that are connected through a third one are connected.
pub proof fn lemma_linked_transitive(wires: Seq<(usize, usize)>, k: nat, a: int, b: int, c: int)
    requires
        linked(wires, k, a, b),
        linked(wires, k, b, c),
    ensures
        linked(wires, k, a, c),
    decreases k,
{
    if k > 0 {
        let before = (k - 1) as nat;
        let x = wires[k - 1].0 as int;
        let y = wires[k - 1].1 as int;
        if linked(wires, before, a, b) {
            if linked(wires, before, b, c) {
                lemma_linked_transitive(wires, before, a, b, c);
            } else if linked(wires, before, b, x) && linked(wires, before, y, c) {
                lemma_linked_transitive(wires, before, a, b, x);
            } else {
                lemma_linked_transitive(wires, before, a, b, y);
            }
        } else if linked(wires, before, a, x) && linked(wires, before, y, b) {
            if linked(wires, before, b, c) {
                lemma_linked_transitive(wires, before, y, b, c);
            } else if linked(wires, before, b, x) && linked(wires, before, y, c) {
            } else {
                lemma_linked_transitive(wires, before, a, x, c);
            }
        } else {
            if linked(wires, before, b, c) {
                lemma_linked_transitive(wires, before, x, b, c);
            } else if linked(wires, before, b, x) && linked(wires, before, y, c) {
                lemma_linked_transitive(wires, before, a, y, c);
            } else {
            }
        }
    }
}

/// What is connected stays connected when further wires are laid.
pub proof fn lemma_linked_stays(wires: Seq<(usize, usize)>, k: nat, n: nat, a: int, b: int)
    requires
        k <= n,
        linked(wires, k, a, b),
    ensures
        linked(wires, n, a, b),
    decreases n - k,
{
    if k < n {
        lemma_linked_stays(wires, k, (n - 1) as nat, a, b);
    }
}

/// A wire that has been laid connects its two boxes.
pub proof fn lemma_linked_by_wire(wires: Seq<(usize, usize)>, k: nat, j: int)
    requires
        0 <= j < k,
    ensures
        linked(wires, k, wires[j].0 as int, wires[j].1 as int),
{
    lemma_linked_reflexive(wires, j as nat, wires[j].0 as int);
    lemma_linked_reflexive(wires, j as nat, wires[j].1 as int);
    lemma_linked_stays(wires, (j + 1) as nat, k, wires[j].0 as int, wires[j].1 as int);
}

/// The wires connect no more than they must: whatever relation between boxes
/// holds of a box and itself, holds both ways, carries over a third box and
/// holds of the two ends of each wire laid, holds of all boxes that the wires
/// connect.
pub proof fn lemma_linked_is_least(
    wires: Seq<(usize, usize)>,
    k: nat,
    related: spec_fn(int, int) -> bool,
    a: int,
    b: int,
)
    requires
        forall|x: int| #[trigger] related(x, x),
        forall|x: int, y: int| #[trigger] related(x, y) ==> related(y, x),
        forall|x: int, y: int, z: int| #[trigger]
            related(x, y) && #[trigger] related(y, z) ==> related(x, z),
        forall|j: int| 0 <= j < k ==> related(#[trigger] wires[j].0 as int, wires[j].1 as int),
        linked(wires, k, a, b),
    ensures
        related(a, b),
    decreases k,
{
    if k > 0 {
        let before = (k - 1) as nat;
        let x = wires[k - 1].0 as int;
        let y = wires[k - 1].1 as int;
        assert(related(x, y));
        assert(related(y, x));
        if linked(wires, before, a, b) {
            lemma_linked_is_least(wires, before, related, a, b);
        } else if linked(wires, before, a, x) && linked(wires, before, y, b) {
            lemma_linked_is_least(wires, before, related, a, x);
            lemma_linked_is_least(wires, before, related, y, b);
            assert(related(a, y));
        } else {
            lemma_linked_is_least(wires, before, related, a, y);
            lemma_linked_is_least(wires, before, related, x, b);
            assert(related(a, x));
        }
    }
}

/// However many joins are made, two elements have the same root exactly if
/// the joins connect them, by one join or through several, and every element
/// is led to the one root of its subset. `states` holds the roots before the
/// first join and after each one; at the start every element is its own
/// root.
pub proof fn lemma_same_root_iff_joined(states: Seq<Seq<int>>, joins: Seq<(usize, usize)>, k: nat)
    requires
        states.len() == joins.len() + 1,
        forall|i: int| 0 <= i < states[0].len() ==> #[trigger] states[0][i] == i,
        forall|j: int|
            0 <= j < joins.len() ==> {
                &&& (#[trigger] joins[j]).0 < states[0].len()
                &&& joins[j].1 < states[0].len()
                &&& join_step(states[j], states[j + 1], joins[j].0 as int, joins[j].1 as int)
            },
        k <= joins.len(),
    ensures
        states[k as int].len() == states[0].len(),
        roots_settled(states[k as int]),
        forall|a: int, b: int|
            0 <= a < states[0].len() && 0 <= b < states[0].len() ==> (#[trigger] states[k as int][a]
                == #[trigger] states[k as int][b] <==> linked(joins, k, a, b)),
    decreases k,
{
    if k == 0 {
        lemma_roots_follow_start(states[0], joins);
    } else {
        lemma_same_root_iff_joined(states, joins, (k - 1) as nat);
        let j = k - 1;
        let before = states[j];
        let after = states[k as int];
        let x = joins[j].0 as int;
        let y = joins[j].1 as int;
        assert(joins[j].0 < states[0].len());
        assert(roots_follow(before, joins, j as nat));
        lemma_roots_follow_step(before, after, joins, j as nat);
        lemma_roots_settled_step(before, after, x, y);
    }
}

} // verus!
