//! The successor table of a diagram and the questions the glyph writer asks
//! of it.
//!
//! A table has one row per node, in the order in which the nodes are drawn;
//! row `r` lists the columns of the direct successors of node `r`. The
//! questions are stated over the successor sets that the rows stand for, so
//! that the order inside a row never matters.

use vstd::prelude::*;

verus! {

/// Whether `c` occurs in a successor list.
pub open spec fn listed(list: Seq<usize>, c: int) -> bool {
    exists|k: int| 0 <= k < list.len() && list[k] == c
}

/// Two lists hold the same entries, however often and in whatever order.
pub open spec fn same_entries(a: Seq<usize>, b: Seq<usize>) -> bool {
    forall|c: int| listed(a, c) <==> listed(b, c)
}

/// The successor sets that a table stands for: entry `r` holds the columns
/// listed in row `r`.
pub open spec fn successors(tree: Seq<Vec<usize>>) -> Seq<Set<int>> {
    Seq::new(tree.len(), |r: int| Set::new(|c: int| listed(tree[r]@, c)))
}

/// Every listed successor is itself a row of the table.
pub open spec fn closed_table(tree: Seq<Vec<usize>>) -> bool {
    forall|r: int, k: int|
        0 <= r < tree.len() && 0 <= k < tree[r]@.len() ==> #[trigger] tree[r]@[k] < tree.len()
}

/// `col` is a direct successor of `row`.
pub open spec fn edge(s: Seq<Set<int>>, row: int, col: int) -> bool {
    0 <= row < s.len() && s[row].contains(col)
}

/// `row` has a direct successor strictly to the right of `col`.
pub open spec fn edge_right_of(s: Seq<Set<int>>, row: int, col: int) -> bool {
    exists|c: int| col < c && #[trigger] edge(s, row, c)
}

/// `row` has a direct successor strictly to the left of `col`.
pub open spec fn edge_left_of(s: Seq<Set<int>>, row: int, col: int) -> bool {
    exists|c: int| 0 <= c < col && #[trigger] edge(s, row, c)
}

/// `col` is a direct successor of some row strictly above `row`.
pub open spec fn edge_from_above(s: Seq<Set<int>>, row: int, col: int) -> bool {
    exists|r: int| 0 <= r < row && #[trigger] edge(s, r, col)
}

/// Some row strictly above `row` has a direct successor strictly to the
/// right of `col`.
pub open spec fn edge_right_from_above(s: Seq<Set<int>>, row: int, col: int) -> bool {
    exists|r: int| 0 <= r < row && #[trigger] edge_right_of(s, r, col)
}

/// `col` is a direct successor of `row` or of some row below it.
pub open spec fn edge_from_below(s: Seq<Set<int>>, row: int, col: int) -> bool {
    exists|r: int| row <= r < s.len() && #[trigger] edge(s, r, col)
}

/// `col` is a direct successor of some row.
pub open spec fn edge_into(s: Seq<Set<int>>, col: int) -> bool {
    exists|r: int| 0 <= r < s.len() && #[trigger] edge(s, r, col)
}

/// Whether a successor list holds `x`.
pub fn lists(list: &Vec<usize>, x: usize) -> (b: bool)
    ensures
        b == listed(list@, x as int),
{
    for k in 0..list.len()
        invariant
            forall|j: int| 0 <= j < k ==> list@[j] != x,
    {
        if list[k] == x {
            return true;
        }
    }
    false
}

/// The largest entry of a successor list, if it has any.
pub fn largest(list: &Vec<usize>) -> (m: Option<usize>)
    ensures
        m is None <==> list@.len() == 0,
        m matches Some(top) ==> listed(list@, top as int) && forall|k: int|
            0 <= k < list@.len() ==> list@[k] <= top,
{
    if list.len() == 0 {
        return None;
    }
    let mut top: usize = list[0];
    for k in 1..list.len()
        invariant
            listed(list@, top as int),
            forall|j: int| 0 <= j < k ==> list@[j] <= top,
    {
        if list[k] > top {
            top = list[k];
        }
    }
    Some(top)
}

/// Whether `col` is a direct successor of `row`.
pub fn col_is_dsucc_of_row(tree: &Vec<Vec<usize>>, row: usize, col: usize) -> (b: bool)
    requires
        row < tree.len(),
    ensures
        b == edge(successors(tree@), row as int, col as int),
{
    lists(&tree[row], col)
}

/// Whether `row` has a direct successor strictly to the right of `col`:
/// whether `col` is less than the largest successor of `row`.
pub fn right_is_dsucc_of_row(tree: &Vec<Vec<usize>>, row: usize, col: usize) -> (b: bool)
    requires
        row < tree.len(),
    ensures
        b == edge_right_of(successors(tree@), row as int, col as int),
{
    let ghost s = successors(tree@);
    match largest(&tree[row]) {
        Some(last_ddesc) => {
            proof {
                if col < last_ddesc {
                    assert(edge(s, row as int, last_ddesc as int));
                }
            }
            col < last_ddesc
        },
        None => false,
    }
}

/// Whether `col` is a direct successor of some row strictly above `row`.
pub fn col_is_dsucc_of_above(tree: &Vec<Vec<usize>>, row: usize, col: usize) -> (b: bool)
    requires
        row <= tree.len(),
    ensures
        b == edge_from_above(successors(tree@), row as int, col as int),
{
    for row_above in 0..row
        invariant
            row <= tree.len(),
            forall|r: int| 0 <= r < row_above ==> !edge(successors(tree@), r, col as int),
    {
        if col_is_dsucc_of_row(tree, row_above, col) {
            return true;
        }
    }
    false
}

/// Whether some row strictly above `row` has a direct successor strictly to
/// the right of `col`.
pub fn right_is_dsucc_of_above(tree: &Vec<Vec<usize>>, row: usize, col: usize) -> (b: bool)
    requires
        row <= tree.len(),
    ensures
        b == edge_right_from_above(successors(tree@), row as int, col as int),
{
    for row_above in 0..row
        invariant
            row <= tree.len(),
            forall|r: int| 0 <= r < row_above ==> !edge_right_of(successors(tree@), r, col as int),
    {
        if right_is_dsucc_of_row(tree, row_above, col) {
            return true;
        }
    }
    false
}

/// Whether `row` has a direct successor strictly to the left of `col`.
pub fn row_is_dpred_of_left(tree: &Vec<Vec<usize>>, row: usize, col: usize) -> (b: bool)
    requires
        row < tree.len(),
    ensures
        b == edge_left_of(successors(tree@), row as int, col as int),
{
    for col_left in 0..col
        invariant
            row < tree.len(),
            forall|c: int| 0 <= c < col_left ==> !edge(successors(tree@), row as int, c),
    {
        if col_is_dsucc_of_row(tree, row, col_left) {
            return true;
        }
    }
    false
}

/// The same question as [`row_is_dpred_of_left`], under the name the
/// diagonal cells ask it by.
pub fn left_is_dsucc_of_row(tree: &Vec<Vec<usize>>, row: usize, col: usize) -> (b: bool)
    requires
        row < tree.len(),
    ensures
        b == edge_left_of(successors(tree@), row as int, col as int),
{
    row_is_dpred_of_left(tree, row, col)
}

/// Whether `col` is a direct successor of some row. The row does not
/// matter.
pub fn anywhere_is_dsucc_of_col(tree: &Vec<Vec<usize>>, _row: usize, col: usize) -> (b: bool)
    ensures
        b == edge_into(successors(tree@), col as int),
{
    for r in 0..tree.len()
        invariant
            forall|q: int| 0 <= q < r ==> !edge(successors(tree@), q, col as int),
    {
        if col_is_dsucc_of_row(tree, r, col) {
            return true;
        }
    }
    false
}

/// Whether `col` is a direct successor of `row` or of some row below it.
pub fn below_is_dsucc_of_col(tree: &Vec<Vec<usize>>, row: usize, col: usize) -> (b: bool)
    ensures
        b == edge_from_below(successors(tree@), row as int, col as int),
{
    let n = tree.len();
    let mut row_below = row;
    while row_below < n
        invariant
            n == tree.len(),
            row <= row_below,
            forall|r: int| row <= r < row_below ==> !edge(successors(tree@), r, col as int),
        decreases n - row_below,
    {
        if col_is_dsucc_of_row(tree, row_below, col) {
            return true;
        }
        row_below += 1;
    }
    false
}

} // verus!
