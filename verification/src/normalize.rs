//! Normalization: from a successor table over node numbers and the order in
//! which the nodes are to be drawn, to the table of the diagram, whose rows
//! and columns are positions in that order.

use crate::table::{closed_table, edge, listed, successors};
use itertools::Itertools;
use vstd::prelude::*;
use vstd::seq_lib::seq_to_set_is_finite;
use vstd::set_lib::{lemma_int_range, lemma_subset_equality, set_int_range};

verus! {

/// `order` names every node number below its length exactly once.
pub open spec fn permutation(order: Seq<usize>) -> bool {
    &&& forall|i: int| 0 <= i < order.len() ==> #[trigger] order[i] < order.len()
    &&& forall|i: int, j: int| 0 <= i < j < order.len() ==> order[i] != order[j]
}

/// The position at which `order` names node `v`.
pub open spec fn position(order: Seq<usize>, v: usize) -> usize {
    choose|j: usize| j < order.len() && order[j as int] == v
}

/// Row `v` of a table; a node without a row has no successors.
pub open spec fn row_of(tree: Seq<Vec<usize>>, v: int) -> Seq<usize> {
    if 0 <= v < tree.len() {
        tree[v]@
    } else {
        Seq::empty()
    }
}

/// Every listed successor is a node that `order` can name.
pub open spec fn closed_under(tree: Seq<Vec<usize>>, n: nat) -> bool {
    forall|r: int, k: int|
        0 <= r < tree.len() && 0 <= k < tree[r]@.len() ==> #[trigger] tree[r]@[k] < n
}

/// A list in ascending order.
pub open spec fn ascending(list: Seq<usize>) -> bool {
    forall|i: int, j: int| 0 <= i < j < list.len() ==> list[i] <= list[j]
}

/// The successor sets of a diagram drawn in `order`: position `c` succeeds
/// position `i` exactly when node `order[c]` succeeds node `order[i]`.
pub open spec fn renumbered(s: Seq<Set<int>>, order: Seq<usize>) -> Seq<Set<int>> {
    Seq::new(
        order.len(),
        |i: int|
            Set::new(|c: int| 0 <= c < order.len() && edge(s, order[i] as int, order[c] as int)),
    )
}

/// A permutation names every node: each number below its length has a
/// position.
pub proof fn lemma_permutation_names_all(order: Seq<usize>, v: usize)
    requires
        permutation(order),
        v < order.len(),
    ensures
        position(order, v) < order.len(),
        order[position(order, v) as int] == v,
{
    let n = order.len() as int;
    let ints = order.map_values(|x: usize| x as int);
    assert(ints.no_duplicates());
    ints.unique_seq_to_set();
    seq_to_set_is_finite(ints);
    lemma_int_range(0, n);
    assert(ints.to_set().subset_of(set_int_range(0, n))) by {
        assert forall|x: int| ints.to_set().contains(x) implies set_int_range(0, n).contains(
            x,
        ) by {
            let j = choose|j: int| 0 <= j < ints.len() && ints[j] == x;
            assert(order[j] < order.len());
        }
    }
    lemma_subset_equality(ints.to_set(), set_int_range(0, n));
    assert(set_int_range(0, n).contains(v as int));
    assert(ints.contains(v as int));
    let j = choose|j: int| 0 <= j < ints.len() && ints[j] == v as int;
    assert(n - 1 <= usize::MAX) by {
        assert(set_int_range(0, n).contains(n - 1));
        assert(ints.contains(n - 1));
        let top = choose|top: int| 0 <= top < ints.len() && ints[top] == n - 1;
        assert(order[top] == n - 1);
    }
    assert(order[j as usize as int] == v);
}

/// Sorts a successor list with `itertools::Itertools::sorted`, which collects
/// the items, sorts them with the slice's stable sort and hands them back:
/// the same items, each as often as before, in ascending order.
#[verifier::external_body]
pub(crate) fn sorted(list: Vec<usize>) -> (r: Vec<usize>)
    ensures
        ascending(r@),
        r@.to_multiset() == list@.to_multiset(),
{
    list.into_iter().sorted().collect()
}

/// The table that tells each node its position in `order`.
fn positions(order: &Vec<usize>) -> (lut: Vec<usize>)
    requires
        permutation(order@),
    ensures
        lut.len() == order.len(),
        forall|v: usize| v < order.len() ==> #[trigger] lut[v as int] == position(order@, v),
{
    let n = order.len();
    let mut lut: Vec<usize> = Vec::new();
    for i in 0..n
        invariant
            lut.len() == i,
    {
        lut.push(0);
    }
    for i in 0..n
        invariant
            n == order.len(),
            lut.len() == n,
            permutation(order@),
            forall|j: int| 0 <= j < i ==> lut[#[trigger] order[j] as int] == j,
    {
        lut.set(order[i], i);
    }
    assert forall|v: usize| v < order.len() implies #[trigger] lut[v as int] == position(
        order@,
        v,
    ) by {
        lemma_permutation_names_all(order@, v);
    }
    lut
}

/// Rewrites a successor table over node numbers as the table of the diagram
/// drawn in `order`: row `i` lists, in ascending order, the positions of the
/// successors of node `order[i]`. A node without a row in `tree` gets an
/// empty row.
pub fn normalized(tree: &Vec<Vec<usize>>, order: &Vec<usize>) -> (norm: Vec<Vec<usize>>)
    requires
        tree.len() <= order.len(),
        permutation(order@),
        closed_under(tree@, order@.len()),
    ensures
        norm.len() == order.len(),
        closed_table(norm@),
        forall|i: int| 0 <= i < norm.len() ==> ascending(#[trigger] norm[i]@),
        forall|i: int|
            0 <= i < norm.len() ==> (#[trigger] norm[i]@).to_multiset() == row_of(
                tree@,
                order[i] as int,
            ).map_values(|v: usize| position(order@, v)).to_multiset(),
        successors(norm@) == renumbered(successors(tree@), order@),
{
    let n = order.len();
    let lut = positions(order);
    let mut result: Vec<Vec<usize>> = Vec::new();
    for i in 0..n
        invariant
            n == order.len(),
            tree.len() <= n,
            permutation(order@),
            closed_under(tree@, order@.len()),
            lut.len() == n,
            forall|v: usize| v < n ==> #[trigger] lut[v as int] == position(order@, v),
            result.len() == i,
            forall|r: int, k: int|
                0 <= r < i && 0 <= k < result[r]@.len() ==> #[trigger] result[r]@[k] < n,
            forall|r: int| 0 <= r < i ==> ascending(#[trigger] result[r]@),
            forall|r: int|
                0 <= r < i ==> (#[trigger] result[r]@).to_multiset() == row_of(
                    tree@,
                    order[r] as int,
                ).map_values(|v: usize| position(order@, v)).to_multiset(),
    {
        let k = order[i];
        let mut new: Vec<usize> = Vec::new();
        if k < tree.len() {
            let old = &tree[k];
            for j in 0..old.len()
                invariant
                    n == order.len(),
                    k < tree.len(),
                    old == &tree[k as int],
                    permutation(order@),
                    closed_under(tree@, order@.len()),
                    lut.len() == n,
                    forall|v: usize| v < n ==> #[trigger] lut[v as int] == position(order@, v),
                    new.len() == j,
                    forall|q: int|
                        0 <= q < j ==> #[trigger] new[q] == position(order@, old[q]),
            {
                new.push(lut[old[j]]);
            }
        }
        let ghost raw = new@;
        let ghost wanted = row_of(tree@, k as int).map_values(
            |v: usize| position(order@, v),
        );
        assert(raw =~= wanted);
        let new = sorted(new);
        proof {
            broadcast use vstd::seq_lib::to_multiset_contains;

            assert forall|q: int| 0 <= q < new@.len() implies #[trigger] new@[q] < n by {
                assert(new@.contains(new@[q]));
                assert(new@.to_multiset().count(new@[q]) > 0);
                assert(raw.to_multiset().count(new@[q]) > 0);
                assert(raw.contains(new@[q]));
                let p = choose|p: int| 0 <= p < raw.len() && raw[p] == new@[q];
                lemma_permutation_names_all(order@, tree[k as int]@[p]);
            }
        }
        result.push(new);
    }
    proof {
        lemma_normalized_successors(tree@, order@, result@);
    }
    result
}

/// A table whose rows hold the positions of the successors stands for the
/// renumbered successor sets.
proof fn lemma_normalized_successors(tree: Seq<Vec<usize>>, order: Seq<usize>, norm: Seq<Vec<usize>>)
    requires
        tree.len() <= order.len(),
        permutation(order),
        closed_under(tree, order.len()),
        norm.len() == order.len(),
        forall|i: int|
            0 <= i < norm.len() ==> (#[trigger] norm[i]@).to_multiset() == row_of(
                tree,
                order[i] as int,
            ).map_values(|v: usize| position(order, v)).to_multiset(),
    ensures
        successors(norm) =~= renumbered(successors(tree), order),
{
    broadcast use vstd::seq_lib::to_multiset_contains;

    let s = successors(tree);
    assert forall|i: int, c: int| 0 <= i < norm.len() implies (successors(norm)[i].contains(c)
        <==> renumbered(s, order)[i].contains(c)) by {
        let row = row_of(tree, order[i] as int);
        let raw = row.map_values(|v: usize| position(order, v));
        if listed(norm[i]@, c) {
            let k = choose|k: int| 0 <= k < norm[i]@.len() && norm[i]@[k] == c;
            let x = norm[i]@[k];
            assert(norm[i]@.contains(x));
            assert(norm[i]@.to_multiset().count(x) > 0);
            assert(raw.to_multiset().count(x) > 0);
            assert(raw.contains(x));
            let p = choose|p: int| 0 <= p < raw.len() && raw[p] == x;
            lemma_permutation_names_all(order, row[p]);
            assert(row[p] == order[c]);
            assert(listed(tree[order[i] as int]@, order[c] as int));
        }
        if 0 <= c < order.len() && edge(s, order[i] as int, order[c] as int) {
            let p = choose|p: int| 0 <= p < row.len() && row[p] == order[c] as int;
            lemma_permutation_names_all(order, row[p]);
            let x = position(order, row[p]);
            assert(x == c);
            assert(raw[p] == x);
            assert(raw.contains(x));
            assert(raw.to_multiset().count(x) > 0);
            assert(norm[i]@.to_multiset().count(x) > 0);
            assert(norm[i]@.contains(x));
        }
    }
    assert forall|i: int| 0 <= i < norm.len() implies successors(norm)[i] =~= renumbered(
        s,
        order,
    )[i] by {}
}

} // verus!
