//! The circuits that the wires make of the junction boxes: their sizes, and
//! the product of the sizes of the largest ones.

use crate::aoc_25::day_08::JunctionBox;
use crate::aoc_25::wiring::{linked, root_of, roots, roots_follow, roots_settled, size_of};
use disjoint::DisjointSetVec;
use itertools::Itertools;
use std::cmp::Ordering;
use std::collections::HashMap;
use vstd::prelude::*;

verus! {

broadcast use vstd::std_specs::hash::group_hash_axioms;

/// How two circuits stand in the order of their sizes, the larger one first.
pub fn larger_first(a: &(usize, i64), b: &(usize, i64)) -> (o: Ordering)
    ensures
        o is Less <==> a.1 > b.1,
        o is Greater <==> a.1 < b.1,
{
    if a.1 > b.1 {
        Ordering::Less
    } else if a.1 < b.1 {
        Ordering::Greater
    } else {
        Ordering::Equal
    }
}

/// Sorts the circuits with `Itertools::sorted_by`, in the order that
/// `larger_first` gives. The contract claims what the documentation of that
/// method says: the circuits are the same ones, and no circuit stands before
/// a larger one.
#[verifier::external_body]
pub(crate) fn sorted_by_size(circuits: Vec<(usize, i64)>) -> (sorted: Vec<(usize, i64)>)
    ensures
        sorted@.to_multiset() == circuits@.to_multiset(),
        forall|i: int, j: int| 0 <= i < j < sorted@.len() ==> sorted@[i].1 >= sorted@[j].1,
{
    circuits.into_iter().sorted_by(|a, b| larger_first(a, b)).collect()
}

/// The number of boxes among the first `n` that are in one circuit with `a`
/// after the first `k` wires.
pub open spec fn circuit_size(wires: Seq<(usize, usize)>, k: nat, n: nat, a: int) -> nat
    decreases n,
{
    if n == 0 {
        0
    } else {
        circuit_size(wires, k, (n - 1) as nat, a) + if linked(wires, k, a, n - 1) {
            1nat
        } else {
            0nat
        }
    }
}

/// The boxes `a` and `b` are among the first `n` and in different circuits
/// after the first `k` wires.
pub open spec fn apart(wires: Seq<(usize, usize)>, k: nat, n: nat, a: int, b: int) -> bool {
    0 <= a < n && 0 <= b < n && !linked(wires, k, a, b)
}

/// One, two or three of the `n` boxes, each in a circuit of its own, make the
/// product `r` of the sizes of their circuits.
pub open spec fn is_product_of_circuits(wires: Seq<(usize, usize)>, k: nat, n: nat, r: int) -> bool {
    ||| exists|a: int| 0 <= a < n && r == #[trigger] circuit_size(wires, k, n, a)
    ||| exists|a: int, b: int| #[trigger]
        apart(wires, k, n, a, b) && r == circuit_size(wires, k, n, a) * circuit_size(
            wires,
            k,
            n,
            b,
        )
    ||| exists|a: int, b: int, c: int|
        #![trigger apart(wires, k, n, a, b), apart(wires, k, n, b, c)]
        apart(wires, k, n, a, b) && apart(wires, k, n, b, c) && apart(wires, k, n, a, c) && r
            == circuit_size(wires, k, n, a) * circuit_size(wires, k, n, b) * circuit_size(
            wires,
            k,
            n,
            c,
        )
}

/// No one, two or three of the `n` boxes, each in a circuit of its own, make
/// a larger product of the sizes of their circuits than `r`.
pub open spec fn bounds_products_of_circuits(wires: Seq<(usize, usize)>, k: nat, n: nat, r: int) -> bool {
    &&& forall|a: int| 0 <= a < n ==> #[trigger] circuit_size(wires, k, n, a) <= r
    &&& forall|a: int, b: int| #[trigger]
        apart(wires, k, n, a, b) ==> circuit_size(wires, k, n, a) * circuit_size(wires, k, n, b)
            <= r
    &&& forall|a: int, b: int, c: int|
        #![trigger apart(wires, k, n, a, b), apart(wires, k, n, b, c)]
        apart(wires, k, n, a, b) && apart(wires, k, n, b, c) && apart(wires, k, n, a, c)
            ==> circuit_size(wires, k, n, a) * circuit_size(wires, k, n, b) * circuit_size(
            wires,
            k,
            n,
            c,
        ) <= r
}

/// `r` is the product of the sizes of the three largest circuits that the
/// first `k` wires make of the `n` boxes; where there are fewer circuits, of
/// all of them.
pub open spec fn is_largest_product(wires: Seq<(usize, usize)>, k: nat, n: nat, r: int) -> bool {
    is_product_of_circuits(wires, k, n, r) && bounds_products_of_circuits(wires, k, n, r)
}

/// The number of elements among the first `m` that have the root `root`.
pub open spec fn count_root(r: Seq<int>, root: int, m: nat) -> nat
    decreases m,
{
    if m == 0 {
        0
    } else {
        count_root(r, root, (m - 1) as nat) + if r[m - 1] == root {
            1nat
        } else {
            0nat
        }
    }
}

/// As many elements have the root of `a` as boxes are in the circuit of `a`.
pub proof fn lemma_count_is_size(r: Seq<int>, wires: Seq<(usize, usize)>, k: nat, a: int, m: nat)
    requires
        roots_follow(r, wires, k),
        0 <= a < r.len(),
        m <= r.len(),
    ensures
        count_root(r, r[a], m) == circuit_size(wires, k, m, a),
    decreases m,
{
    if m > 0 {
        lemma_count_is_size(r, wires, k, a, (m - 1) as nat);
        assert(r[a] == r[m - 1] <==> linked(wires, k, a, m - 1));
    }
}

/// Further elements do not take from the count of a root, and a root that is
/// met counts.
pub proof fn lemma_count_root_grows(r: Seq<int>, root: int, m: nat, n: nat)
    requires
        m <= n,
    ensures
        count_root(r, root, m) <= count_root(r, root, n),
        forall|i: int| m <= i < n && r[i] == root ==> count_root(r, root, n) > count_root(r, root, m),
    decreases n - m,
{
    if m < n {
        lemma_count_root_grows(r, root, m, (n - 1) as nat);
    }
}

/// A root that counts has an element among the first `m`.
pub proof fn lemma_count_root_some(r: Seq<int>, root: int, m: nat)
    requires
        count_root(r, root, m) > 0,
    ensures
        exists|i: int| 0 <= i < m && r[i] == root,
    decreases m,
{
    if m > 0 {
        if r[m - 1] != root {
            lemma_count_root_some(r, root, (m - 1) as nat);
        }
    }
}

/// The root of the element `a` stands in the list.
pub open spec fn is_listed(r: Seq<int>, listed: Seq<(usize, i64)>, a: int) -> bool {
    exists|p: int| 0 <= p < listed.len() && (#[trigger] listed[p]).0 == r[a]
}

/// The circuits by their roots, each with its size: every entry holds a root
/// and the number of elements that have it, no root stands twice, and the
/// root of every element is there.
pub open spec fn lists_circuits(r: Seq<int>, listed: Seq<(usize, i64)>) -> bool {
    &&& forall|p: int|
        0 <= p < listed.len() ==> {
            &&& (#[trigger] listed[p]).0 < r.len()
            &&& r[listed[p].0 as int] == listed[p].0
            &&& listed[p].1 == count_root(r, listed[p].0 as int, r.len())
            &&& listed[p].1 >= 1
        }
    &&& forall|p: int, q: int|
        0 <= p < listed.len() && 0 <= q < listed.len() && p != q ==> (#[trigger] listed[p]).0 != (
        #[trigger] listed[q]).0
    &&& forall|a: int| 0 <= a < r.len() ==> #[trigger] is_listed(r, listed, a)
}

/// The circuits by their roots, each with its size, the largest first.
pub open spec fn ranks_circuits(r: Seq<int>, ranked: Seq<(usize, i64)>) -> bool {
    &&& lists_circuits(r, ranked)
    &&& forall|p: int, q: int|
        0 <= p < q < ranked.len() ==> (#[trigger] ranked[p]).1 >= (#[trigger] ranked[q]).1
}

/// The product of the sizes of the first three circuits; of all of them where
/// there are fewer.
pub open spec fn leading_product(ranked: Seq<(usize, i64)>) -> int {
    if ranked.len() == 0 {
        1
    } else if ranked.len() == 1 {
        ranked[0].1 as int
    } else if ranked.len() == 2 {
        ranked[0].1 * ranked[1].1
    } else {
        ranked[0].1 * ranked[1].1 * ranked[2].1
    }
}

/// A product grows with its factors.
pub proof fn lemma_product_grows(x: int, y: int, z: int, a: int, b: int, c: int)
    requires
        1 <= x <= a,
        1 <= y <= b,
        1 <= z <= c,
    ensures
        x * y * z <= a * b * c,
        x * y <= a * b,
        x * y <= a * b * c,
        x <= a * b,
        x <= a * b * c,
        x * y * z == x * z * y,
        x * y * z == y * x * z,
        x * y * z == y * z * x,
        x * y * z == z * x * y,
        x * y * z == z * y * x,
        x * y == y * x,
{
    assert(1 <= x * y <= a * b && 1 <= a * b) by (nonlinear_arith)
        requires
            1 <= x <= a,
            1 <= y <= b,
    ;
    assert(x * y * z <= a * b * c) by (nonlinear_arith)
        requires
            1 <= x * y <= a * b,
            1 <= z <= c,
    {
    }
    assert(a * b <= a * b * c) by (nonlinear_arith)
        requires
            1 <= a * b,
            1 <= c,
    ;
    assert(x <= x * y) by (nonlinear_arith)
        requires
            1 <= x,
            1 <= y,
    ;
    assert(x * y * z == x * z * y && x * y * z == y * x * z && x * y * z == y * z * x && x * y * z
        == z * x * y && x * y * z == z * y * x && x * y == y * x) by (nonlinear_arith);
}

/// The place of the circuit of `a` in the ranking: it holds the root of `a`
/// and the size of its circuit.
pub proof fn lemma_place_of(
    r: Seq<int>,
    wires: Seq<(usize, usize)>,
    k: nat,
    ranked: Seq<(usize, i64)>,
    a: int,
) -> (p: int)
    requires
        roots_follow(r, wires, k),
        ranks_circuits(r, ranked),
        0 <= a < r.len(),
    ensures
        0 <= p < ranked.len(),
        ranked[p].0 == r[a],
        ranked[p].1 == circuit_size(wires, k, r.len(), a),
        ranked[p].1 >= 1,
{
    assert(is_listed(r, ranked, a));
    let p = choose|p: int| 0 <= p < ranked.len() && (#[trigger] ranked[p]).0 == r[a];
    lemma_count_is_size(r, wires, k, a, r.len());
    p
}

/// The root that stands at a place of the ranking is a box of the circuit
/// that the place is for.
pub proof fn lemma_box_at(
    r: Seq<int>,
    wires: Seq<(usize, usize)>,
    k: nat,
    ranked: Seq<(usize, i64)>,
    p: int,
)
    requires
        roots_follow(r, wires, k),
        ranks_circuits(r, ranked),
        0 <= p < ranked.len(),
    ensures
        0 <= ranked[p].0 < r.len(),
        ranked[p].1 == circuit_size(wires, k, r.len(), ranked[p].0 as int),
        forall|q: int|
            0 <= q < ranked.len() && q != p ==> apart(
                wires,
                k,
                r.len(),
                ranked[p].0 as int,
                #[trigger] ranked[q].0 as int,
            ),
{
    let e = ranked[p].0 as int;
    lemma_count_is_size(r, wires, k, e, r.len());
    assert forall|q: int| 0 <= q < ranked.len() && q != p implies apart(
        wires,
        k,
        r.len(),
        e,
        #[trigger] ranked[q].0 as int,
    ) by {
        let f = ranked[q].0 as int;
        assert(r[e] == r[f] <==> linked(wires, k, e, f));
    }
}

/// The product of the sizes that lead the ranking is the product of the
/// sizes of the three largest circuits.
pub proof fn lemma_ranking_gives_product(
    r: Seq<int>,
    wires: Seq<(usize, usize)>,
    k: nat,
    ranked: Seq<(usize, i64)>,
)
    requires
        r.len() >= 1,
        roots_follow(r, wires, k),
        ranks_circuits(r, ranked),
    ensures
        ranked.len() >= 1,
        is_largest_product(wires, k, r.len(), leading_product(ranked)),
{
    let n = r.len();
    let best = leading_product(ranked);
    let first = lemma_place_of(r, wires, k, ranked, 0);
    let c0 = ranked[0].1 as int;
    lemma_box_at(r, wires, k, ranked, 0);
    if ranked.len() >= 2 {
        lemma_box_at(r, wires, k, ranked, 1);
    }
    if ranked.len() >= 3 {
        lemma_box_at(r, wires, k, ranked, 2);
    }
    let c1 = if ranked.len() >= 2 {
        ranked[1].1 as int
    } else {
        1
    };
    let c2 = if ranked.len() >= 3 {
        ranked[2].1 as int
    } else {
        1
    };
    lemma_product_grows(c0, c1, c2, c0, c1, c2);
    assert(best == c0 * c1 * c2) by (nonlinear_arith)
        requires
            best == if ranked.len() == 1 {
                c0
            } else if ranked.len() == 2 {
                c0 * c1
            } else {
                c0 * c1 * c2
            },
            ranked.len() <= 1 ==> c1 == 1,
            ranked.len() <= 2 ==> c2 == 1,
            ranked.len() >= 1,
    ;
    // some boxes make the product
    assert(is_product_of_circuits(wires, k, n, best)) by {
        let e0 = ranked[0].0 as int;
        if ranked.len() == 1 {
            assert(best == circuit_size(wires, k, n, e0));
        } else if ranked.len() == 2 {
            let e1 = ranked[1].0 as int;
            assert(apart(wires, k, n, e0, e1));
            assert(best == circuit_size(wires, k, n, e0) * circuit_size(wires, k, n, e1));
        } else {
            let e1 = ranked[1].0 as int;
            let e2 = ranked[2].0 as int;
            assert(apart(wires, k, n, e0, e1));
            assert(apart(wires, k, n, e1, e2));
            assert(apart(wires, k, n, e0, e2));
            assert(best == circuit_size(wires, k, n, e0) * circuit_size(wires, k, n, e1)
                * circuit_size(wires, k, n, e2));
        }
    }
    // and no boxes make a larger one
    assert forall|a: int| 0 <= a < n implies #[trigger] circuit_size(wires, k, n, a) <= best by {
        let p = lemma_place_of(r, wires, k, ranked, a);
        lemma_product_grows(ranked[p].1 as int, 1, 1, c0, c1, c2);
    }
    assert forall|a: int, b: int| #[trigger] apart(wires, k, n, a, b) implies circuit_size(
        wires,
        k,
        n,
        a,
    ) * circuit_size(wires, k, n, b) <= best by {
        let p = lemma_place_of(r, wires, k, ranked, a);
        let q = lemma_place_of(r, wires, k, ranked, b);
        assert(r[a] == r[b] <==> linked(wires, k, a, b));
        assert(p != q);
        let x = ranked[p].1 as int;
        let y = ranked[q].1 as int;
        if p < q {
            lemma_product_grows(x, y, 1, c0, c1, c2);
        } else {
            lemma_product_grows(y, x, 1, c0, c1, c2);
        }
    }
    assert forall|a: int, b: int, c: int|
        #![trigger apart(wires, k, n, a, b), apart(wires, k, n, b, c)]
        apart(wires, k, n, a, b) && apart(wires, k, n, b, c) && apart(
            wires,
            k,
            n,
            a,
            c,
        ) implies circuit_size(wires, k, n, a) * circuit_size(wires, k, n, b) * circuit_size(
        wires,
        k,
        n,
        c,
    ) <= best by {
        let p = lemma_place_of(r, wires, k, ranked, a);
        let q = lemma_place_of(r, wires, k, ranked, b);
        let t = lemma_place_of(r, wires, k, ranked, c);
        assert(r[a] == r[b] <==> linked(wires, k, a, b));
        assert(r[b] == r[c] <==> linked(wires, k, b, c));
        assert(r[a] == r[c] <==> linked(wires, k, a, c));
        assert(p != q && q != t && p != t);
        let x = ranked[p].1 as int;
        let y = ranked[q].1 as int;
        let z = ranked[t].1 as int;
        if p < q && q < t {
            lemma_product_grows(x, y, z, c0, c1, c2);
        } else if p < t && t < q {
            lemma_product_grows(x, z, y, c0, c1, c2);
        } else if q < p && p < t {
            lemma_product_grows(y, x, z, c0, c1, c2);
        } else if q < t && t < p {
            lemma_product_grows(y, z, x, c0, c1, c2);
        } else if t < p && p < q {
            lemma_product_grows(z, x, y, c0, c1, c2);
        } else {
            lemma_product_grows(z, y, x, c0, c1, c2);
        }
    }
}

/// A list of the circuits stays one when its entries are put in another
/// order.
pub proof fn lemma_reordered_lists_circuits(
    r: Seq<int>,
    listed: Seq<(usize, i64)>,
    reordered: Seq<(usize, i64)>,
)
    requires
        lists_circuits(r, listed),
        reordered.to_multiset() == listed.to_multiset(),
    ensures
        lists_circuits(r, reordered),
{
    listed.to_multiset_ensures();
    reordered.to_multiset_ensures();
    assert(listed.no_duplicates()) by {
        assert forall|p: int, q: int|
            0 <= p < listed.len() && 0 <= q < listed.len() && p != q implies listed[p]
            != listed[q] by {
            assert(listed[p].0 != listed[q].0);
        }
    }
    listed.lemma_multiset_has_no_duplicates();
    reordered.lemma_multiset_has_no_duplicates_conv();
    assert forall|p: int| 0 <= p < reordered.len() implies {
        &&& (#[trigger] reordered[p]).0 < r.len()
        &&& r[reordered[p].0 as int] == reordered[p].0
        &&& reordered[p].1 == count_root(r, reordered[p].0 as int, r.len())
        &&& reordered[p].1 >= 1
    } by {
        assert(reordered.contains(reordered[p]));
        assert(reordered.to_multiset().count(reordered[p]) > 0);
        assert(listed.to_multiset().count(reordered[p]) > 0);
        assert(listed.contains(reordered[p]));
        let q = choose|q: int| 0 <= q < listed.len() && listed[q] == reordered[p];
        assert(listed[q].0 < r.len());
    }
    assert forall|p: int, q: int|
        0 <= p < reordered.len() && 0 <= q < reordered.len() && p != q implies (
    #[trigger] reordered[p]).0 != (#[trigger] reordered[q]).0 by {
        assert(reordered[p] != reordered[q]);
        assert(reordered[p].1 == count_root(r, reordered[p].0 as int, r.len()));
        assert(reordered[q].1 == count_root(r, reordered[q].0 as int, r.len()));
    }
    assert forall|a: int| 0 <= a < r.len() implies #[trigger] is_listed(r, reordered, a) by {
        assert(is_listed(r, listed, a));
        let q = choose|q: int| 0 <= q < listed.len() && (#[trigger] listed[q]).0 == r[a];
        assert(listed.contains(listed[q]));
        assert(listed.to_multiset().count(listed[q]) > 0);
        assert(reordered.to_multiset().count(listed[q]) > 0);
        assert(reordered.contains(listed[q]));
        let p = choose|p: int| 0 <= p < reordered.len() && reordered[p] == listed[q];
        assert(reordered[p].0 == r[a]);
    }
}

/// Counts the elements of each subset of the set, by the roots. The circuits
/// come in the order of their roots. No count is handed out if a subset has
/// more elements than an `i64` can count.
pub(crate) fn tally(set: &DisjointSetVec<JunctionBox>) -> (r: Option<Vec<(usize, i64)>>)
    requires
        roots_settled(roots(*set)),
    ensures
        match r {
            Some(listed) => lists_circuits(roots(*set), listed@),
            None => exists|a: int|
                0 <= a < roots(*set).len() && count_root(
                    roots(*set),
                    #[trigger] roots(*set)[a],
                    roots(*set).len(),
                ) > i64::MAX,
        },
{
    let ghost all = roots(*set);
    let n: usize = size_of(set);
    let mut circuits: HashMap<usize, i64> = HashMap::new();
    let mut idx: usize = 0;
    while idx < n
        invariant
            idx <= n,
            n == all.len(),
            all == roots(*set),
            roots_settled(all),
            forall|root: usize|
                circuits@.contains_key(root) <==> count_root(all, root as int, idx as nat) > 0,
            forall|root: usize| #[trigger]
                circuits@.contains_key(root) ==> circuits@[root] == count_root(
                    all,
                    root as int,
                    idx as nat,
                ),
        decreases n - idx,
    {
        let root: usize = root_of(set, idx);
        let before: i64 = match circuits.get(&root) {
            Some(count) => *count,
            None => 0,
        };
        if before == i64::MAX {
            proof {
                lemma_count_root_grows(all, root as int, (idx + 1) as nat, n as nat);
                assert(count_root(all, all[idx as int], n as nat) > i64::MAX);
            }
            return None;
        }
        circuits.insert(root, before + 1);
        idx += 1;
    }
    let mut listed: Vec<(usize, i64)> = Vec::new();
    let mut root: usize = 0;
    while root < n
        invariant
            root <= n,
            n == all.len(),
            all == roots(*set),
            roots_settled(all),
            forall|e: usize| circuits@.contains_key(e) <==> count_root(all, e as int, n as nat) > 0,
            forall|e: usize| #[trigger]
                circuits@.contains_key(e) ==> circuits@[e] == count_root(all, e as int, n as nat),
            forall|p: int|
                0 <= p < listed@.len() ==> {
                    &&& (#[trigger] listed@[p]).0 < root
                    &&& all[listed@[p].0 as int] == listed@[p].0
                    &&& listed@[p].1 == count_root(all, listed@[p].0 as int, n as nat)
                    &&& listed@[p].1 >= 1
                },
            forall|p: int, q: int|
                0 <= p < listed@.len() && 0 <= q < listed@.len() && p != q ==> (
                #[trigger] listed@[p]).0 != (#[trigger] listed@[q]).0,
            forall|e: usize|
                e < root && circuits@.contains_key(e) ==> exists|p: int|
                    0 <= p < listed@.len() && (#[trigger] listed@[p]).0 == e,
        decreases n - root,
    {
        let ghost before = listed@;
        match circuits.get(&root) {
            Some(count) => {
                proof {
                    lemma_count_root_some(all, root as int, n as nat);
                    let i = choose|i: int| 0 <= i < n && all[i] == root;
                    assert(all[all[i]] == all[i]);
                }
                listed.push((root, *count));
                assert forall|e: usize| e < root + 1 && circuits@.contains_key(e) implies exists|
                    p: int,
                | 0 <= p < listed@.len() && (#[trigger] listed@[p]).0 == e by {
                    if e < root {
                        let p = choose|p: int| 0 <= p < before.len() && (#[trigger] before[p]).0 == e;
                        assert(listed@[p] == before[p]);
                    } else {
                        assert(listed@[before.len() as int].0 == e);
                    }
                }
            },
            None => {},
        }
        root += 1;
    }
    proof {
        assert forall|a: int| 0 <= a < n implies #[trigger] is_listed(all, listed@, a) by {
            let e = all[a] as usize;
            lemma_count_root_grows(all, all[a], a as nat, n as nat);
            assert(circuits@.contains_key(e));
            let p = choose|p: int| 0 <= p < listed@.len() && (#[trigger] listed@[p]).0 == e;
            assert(listed@[p].0 == all[a]);
        }
        assert forall|p: int| 0 <= p < listed@.len() implies {
            &&& (#[trigger] listed@[p]).0 < all.len()
            &&& all[listed@[p].0 as int] == listed@[p].0
            &&& listed@[p].1 == count_root(all, listed@[p].0 as int, all.len())
            &&& listed@[p].1 >= 1
        } by {
            assert(listed@[p].0 < root);
        }
        assert(lists_circuits(all, listed@));
    }
    Some(listed)
}

/// The product of the sizes of the circuits that lead the ranking, unless it
/// is too large for an `i64`.
pub fn leading(ranked: &Vec<(usize, i64)>) -> (r: Option<i64>)
    requires
        forall|p: int| 0 <= p < ranked@.len() ==> (#[trigger] ranked@[p]).1 >= 1,
    ensures
        r == if leading_product(ranked@) <= i64::MAX {
            Some(leading_product(ranked@) as i64)
        } else {
            None
        },
{
    let mut product: i64 = 1;
    if ranked.len() >= 1 {
        product = ranked[0].1;
    }
    if ranked.len() >= 2 {
        product = match product.checked_mul(ranked[1].1) {
            Some(p) => p,
            None => {
                proof {
                    let two = ranked@[0].1 * ranked@[1].1;
                    if ranked@.len() >= 3 {
                        let third = ranked@[2].1 as int;
                        assert(two * third >= two) by (nonlinear_arith)
                            requires
                                two >= 0,
                                third >= 1,
                        ;
                    }
                }
                return None;
            },
        };
    }
    if ranked.len() >= 3 {
        product = match product.checked_mul(ranked[2].1) {
            Some(p) => p,
            None => {
                return None;
            },
        };
    }
    assert(product >= 1) by (nonlinear_arith)
        requires
            product == leading_product(ranked@),
            ranked@.len() >= 1 ==> ranked@[0].1 >= 1,
            ranked@.len() >= 2 ==> ranked@[1].1 >= 1,
            ranked@.len() >= 3 ==> ranked@[2].1 >= 1,
            leading_product(ranked@) == if ranked@.len() == 0 {
                1
            } else if ranked@.len() == 1 {
                ranked@[0].1 as int
            } else if ranked@.len() == 2 {
                ranked@[0].1 * ranked@[1].1
            } else {
                ranked@[0].1 * ranked@[1].1 * ranked@[2].1
            },
    ;
    Some(product)
}

/// All products of the sizes of one, two or three circuits fit an `i64`.
pub open spec fn products_fit(wires: Seq<(usize, usize)>, k: nat, n: nat) -> bool {
    bounds_products_of_circuits(wires, k, n, i64::MAX as int)
}

/// There is one product of the sizes of the three largest circuits.
pub proof fn lemma_largest_product_unique(
    wires: Seq<(usize, usize)>,
    k: nat,
    n: nat,
    r: int,
    s: int,
)
    requires
        is_largest_product(wires, k, n, r),
        is_largest_product(wires, k, n, s),
    ensures
        r == s,
{
}

/// Whether the wire `k` joins two circuits that the wires before it have left
/// apart.
pub open spec fn merges(wires: Seq<(usize, usize)>, k: nat) -> bool {
    !linked(wires, k, wires[k as int].0 as int, wires[k as int].1 as int)
}

/// The last of the first `k` wires that joined two circuits; the wire between
/// the first two boxes where none did.
pub open spec fn last_merge(wires: Seq<(usize, usize)>, k: nat) -> (usize, usize)
    decreases k,
{
    if k == 0 {
        (0usize, 1usize)
    } else if merges(wires, (k - 1) as nat) {
        wires[k - 1]
    } else {
        last_merge(wires, (k - 1) as nat)
    }
}

} // verus!
