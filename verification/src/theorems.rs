//! What holds of every diagram.

use crate::glyphs::{
    cell, centre, diagram, left_left, left_right, line, line_upto, lines_upto, right_right, run,
    width, Fill, Glyph, MAX_COL_WIDTH,
};
use crate::graph::{arrangement, numbers_of};
use crate::normalize::{lemma_permutation_names_all, permutation, position, renumbered};
use crate::rendering::{
    lemma_nothing_rejected, offends, outcome, rejection_at, rejection_from, renders, Rejection,
    RenderError,
};
use crate::table::{edge, edge_into, edge_right_from_above, edge_right_of, same_entries, successors};
use vstd::prelude::*;

verus! {

/// How often `c` occurs in a text.
pub open spec fn occurrences(text: Seq<char>, c: char) -> nat
    decreases text.len(),
{
    if text.len() == 0 {
        0
    } else if text.last() == c {
        occurrences(text.drop_last(), c) + 1
    } else {
        occurrences(text.drop_last(), c)
    }
}

/// The occurrences in two texts add up.
pub proof fn lemma_occurrences_add(a: Seq<char>, b: Seq<char>, c: char)
    ensures
        occurrences(a + b, c) == occurrences(a, c) + occurrences(b, c),
    decreases b.len(),
{
    if b.len() == 0 {
        assert(a + b =~= a);
    } else {
        lemma_occurrences_add(a, b.drop_last(), c);
        assert((a + b).drop_last() =~= a + b.drop_last());
    }
}

/// A text that nowhere holds `c` has no occurrence of it.
pub proof fn lemma_occurrences_none(text: Seq<char>, c: char)
    requires
        forall|i: int| 0 <= i < text.len() ==> text[i] != c,
    ensures
        occurrences(text, c) == 0,
    decreases text.len(),
{
    if text.len() > 0 {
        lemma_occurrences_none(text.drop_last(), c);
    }
}

/// A cell holds no newline unless the label of its column does.
proof fn lemma_cell_without_newline(s: Seq<Set<int>>, names: Seq<Seq<char>>, row: int, col: int)
    requires
        forall|i: int| 0 <= i < names[col].len() ==> names[col][i] != '\n',
    ensures
        occurrences(cell(s, names, row, col), '\n') == 0,
{
    let ll = left_left(s, row, col).text();
    let lr = left_right(s, row, col).text();
    let cc = centre(s, row, col).text(names[col]);
    let rr = right_right(s, row, col).text();
    lemma_occurrences_none(ll, '\n');
    lemma_occurrences_none(lr, '\n');
    lemma_occurrences_none(cc, '\n');
    lemma_occurrences_none(rr, '\n');
    lemma_occurrences_add(ll, lr, '\n');
    lemma_occurrences_add(ll + lr, cc, '\n');
    lemma_occurrences_add(ll + lr + cc, rr, '\n');
}

/// A line holds no newline unless a label does.
proof fn lemma_line_without_newline(s: Seq<Set<int>>, names: Seq<Seq<char>>, row: int, cols: int)
    requires
        cols <= names.len(),
        forall|c: int, i: int|
            0 <= c < names.len() && 0 <= i < names[c].len() ==> #[trigger] names[c][i] != '\n',
    ensures
        occurrences(line_upto(s, names, row, cols), '\n') == 0,
    decreases cols,
{
    if cols > 0 {
        lemma_line_without_newline(s, names, row, cols - 1);
        lemma_cell_without_newline(s, names, row, cols - 1);
        lemma_occurrences_add(
            line_upto(s, names, row, cols - 1),
            cell(s, names, row, cols - 1),
            '\n',
        );
    }
}

/// The first `rows` lines hold one newline less than there are lines.
proof fn lemma_newlines_upto(s: Seq<Set<int>>, names: Seq<Seq<char>>, rows: int)
    requires
        1 <= rows,
        forall|c: int, i: int|
            0 <= c < names.len() && 0 <= i < names[c].len() ==> #[trigger] names[c][i] != '\n',
    ensures
        occurrences(lines_upto(s, names, rows), '\n') == rows - 1,
    decreases rows,
{
    lemma_line_without_newline(s, names, rows - 1, names.len() as int);
    if rows > 1 {
        lemma_newlines_upto(s, names, rows - 1);
        let above = lines_upto(s, names, rows - 1);
        lemma_occurrences_add(above, seq!['\n'], '\n');
        assert(seq!['\n'].drop_last() =~= Seq::<char>::empty());
        assert(occurrences(Seq::<char>::empty(), '\n') == 0);
        assert(occurrences(seq!['\n'], '\n') == 1);
        lemma_occurrences_add(above + seq!['\n'], line(s, names, rows - 1), '\n');
    }
}

/// A diagram of `n` nodes, `n` at least one, whose labels hold no newline
/// has exactly `n - 1` newlines: one between any two consecutive lines and
/// none at the end.
pub proof fn theorem_newlines(s: Seq<Set<int>>, names: Seq<Seq<char>>)
    requires
        names.len() >= 1,
        forall|c: int, i: int|
            0 <= c < names.len() && 0 <= i < names[c].len() ==> #[trigger] names[c][i] != '\n',
    ensures
        occurrences(diagram(s, names), '\n') == names.len() - 1,
{
    lemma_newlines_upto(s, names, names.len() as int);
}

/// A character of the rules: padding, a junction, a horizontal or a vertical
/// rule.
pub open spec fn rule_character(c: char) -> bool {
    c == ' ' || c == '+' || c == '-' || c == '|'
}

/// Every character of `text` is a character of the rules, a newline, or a
/// character of one of the labels.
pub open spec fn drawn_with(text: Seq<char>, names: Seq<Seq<char>>) -> bool {
    forall|k: int|
        0 <= k < text.len() ==> rule_character(#[trigger] text[k]) || text[k] == '\n' || exists|
            i: int,
        |
            0 <= i < names.len() && (#[trigger] names[i]).contains(text[k])
}

/// Two texts drawn with the same characters make a text drawn with them.
proof fn lemma_drawn_with_add(a: Seq<char>, b: Seq<char>, names: Seq<Seq<char>>)
    requires
        drawn_with(a, names),
        drawn_with(b, names),
    ensures
        drawn_with(a + b, names),
{
    assert forall|k: int| 0 <= k < (a + b).len() implies rule_character(#[trigger] (a + b)[k]) || (a
        + b)[k] == '\n' || exists|i: int|
        0 <= i < names.len() && (#[trigger] names[i]).contains((a + b)[k]) by {
        if k < a.len() {
            assert((a + b)[k] == a[k]);
        } else {
            assert((a + b)[k] == b[k - a.len()]);
        }
    }
}

/// The first cells of a line are drawn with the rules and the labels.
proof fn lemma_line_drawn_with(s: Seq<Set<int>>, names: Seq<Seq<char>>, row: int, cols: int)
    requires
        cols <= names.len(),
    ensures
        drawn_with(line_upto(s, names, row, cols), names),
    decreases cols,
{
    if cols > 0 {
        let col = cols - 1;
        lemma_line_drawn_with(s, names, row, col);
        let ll = left_left(s, row, col).text();
        let lr = left_right(s, row, col).text();
        let cc = centre(s, row, col).text(names[col]);
        let rr = right_right(s, row, col).text();
        assert(drawn_with(cc, names)) by {
            assert forall|k: int| 0 <= k < cc.len() && !rule_character(cc[k]) implies names[col].contains(
                #[trigger] cc[k],
            ) by {
                assert(cc == names[col]);
            }
        }
        lemma_drawn_with_add(ll, lr, names);
        lemma_drawn_with_add(ll + lr, cc, names);
        lemma_drawn_with_add(ll + lr + cc, rr, names);
        lemma_drawn_with_add(line_upto(s, names, row, col), cell(s, names, row, col), names);
    }
}

/// The first lines are drawn with the rules, newlines and the labels.
proof fn lemma_lines_drawn_with(s: Seq<Set<int>>, names: Seq<Seq<char>>, rows: int)
    ensures
        drawn_with(lines_upto(s, names, rows), names),
    decreases rows,
{
    if rows >= 1 {
        lemma_line_drawn_with(s, names, rows - 1, names.len() as int);
        if rows > 1 {
            lemma_lines_drawn_with(s, names, rows - 1);
            lemma_drawn_with_add(lines_upto(s, names, rows - 1), seq!['\n'], names);
            lemma_drawn_with_add(
                lines_upto(s, names, rows - 1) + seq!['\n'],
                line(s, names, rows - 1),
                names,
            );
        }
    }
}

/// Every character of a diagram is a space, `+`, `-`, `|`, a newline, or a
/// character of a label.
pub proof fn theorem_characters(s: Seq<Set<int>>, names: Seq<Seq<char>>)
    ensures
        drawn_with(diagram(s, names), names),
{
    lemma_lines_drawn_with(s, names, names.len() as int);
}

/// `text` begins with `start`.
pub open spec fn begins_with(text: Seq<char>, start: Seq<char>) -> bool {
    start.len() <= text.len() && text.subrange(0, start.len() as int) == start
}

/// A text begins with what begins its beginning.
proof fn lemma_begins_with_chain(text: Seq<char>, middle: Seq<char>, start: Seq<char>)
    requires
        begins_with(text, middle),
        begins_with(middle, start),
    ensures
        begins_with(text, start),
{
    assert(text.subrange(0, start.len() as int) =~= text.subrange(
        0,
        middle.len() as int,
    ).subrange(0, start.len() as int));
}

/// A text that is continued begins as before.
proof fn lemma_begins_with_more(start: Seq<char>, more: Seq<char>)
    ensures
        begins_with(start + more, start),
{
    assert((start + more).subrange(0, start.len() as int) =~= start);
}

/// The cells to the left of a column begin the line.
proof fn lemma_line_begins(s: Seq<Set<int>>, names: Seq<Seq<char>>, row: int, cols: int, all: int)
    requires
        0 <= cols <= all,
    ensures
        begins_with(line_upto(s, names, row, all), line_upto(s, names, row, cols)),
    decreases all - cols,
{
    if cols == all {
        lemma_begins_with_more(line_upto(s, names, row, all), Seq::empty());
        assert(line_upto(s, names, row, all) + Seq::<char>::empty() =~= line_upto(
            s,
            names,
            row,
            all,
        ));
    } else {
        lemma_line_begins(s, names, row, cols, all - 1);
        lemma_begins_with_more(line_upto(s, names, row, all - 1), cell(s, names, row, all - 1));
        lemma_begins_with_chain(
            line_upto(s, names, row, all),
            line_upto(s, names, row, all - 1),
            line_upto(s, names, row, cols),
        );
    }
}

/// The lines above a line begin the diagram.
proof fn lemma_lines_begin(s: Seq<Set<int>>, names: Seq<Seq<char>>, rows: int, all: int)
    requires
        0 <= rows <= all,
    ensures
        begins_with(lines_upto(s, names, all), lines_upto(s, names, rows)),
    decreases all - rows,
{
    if rows == all {
        lemma_begins_with_more(lines_upto(s, names, all), Seq::empty());
        assert(lines_upto(s, names, all) + Seq::<char>::empty() =~= lines_upto(s, names, all));
    } else if all == 1 {
        assert(lines_upto(s, names, 0) =~= Seq::<char>::empty());
        assert(lines_upto(s, names, 1).subrange(0, 0) =~= Seq::<char>::empty());
    } else {
        lemma_lines_begin(s, names, rows, all - 1);
        lemma_begins_with_more(
            lines_upto(s, names, all - 1),
            seq!['\n'] + line(s, names, all - 1),
        );
        assert(lines_upto(s, names, all) =~= lines_upto(s, names, all - 1) + (seq!['\n'] + line(
            s,
            names,
            all - 1,
        )));
        lemma_begins_with_chain(
            lines_upto(s, names, all),
            lines_upto(s, names, all - 1),
            lines_upto(s, names, rows),
        );
    }
}

/// What stands before line `row` in a diagram: the lines above it and the
/// newline that ends them.
pub open spec fn above_line(s: Seq<Set<int>>, names: Seq<Seq<char>>, row: int) -> Seq<char> {
    if row <= 0 {
        Seq::empty()
    } else {
        lines_upto(s, names, row) + seq!['\n']
    }
}

/// What stands in a diagram before the label of position `row`: the lines
/// above, the cells to the left of the diagonal, and the left pair of the
/// diagonal cell.
pub open spec fn before_label(s: Seq<Set<int>>, names: Seq<Seq<char>>, row: int) -> Seq<char> {
    above_line(s, names, row) + line_upto(s, names, row, row) + left_left(s, row, row).text()
        + left_right(s, row, row).text()
}

/// The label of each position stands in the diagram where the centre of its
/// diagonal cell begins: the diagram begins with what stands before the
/// label, followed by the label. So the character at that place is the first
/// character of the label, where the label has one.
pub proof fn theorem_label_on_diagonal(s: Seq<Set<int>>, names: Seq<Seq<char>>, row: int)
    requires
        0 <= row < names.len(),
    ensures
        begins_with(diagram(s, names), before_label(s, names, row) + names[row]),
        names[row].len() > 0 ==> diagram(s, names)[before_label(s, names, row).len() as int]
            == names[row][0],
{
    let n = names.len() as int;
    let before = before_label(s, names, row);
    let above = above_line(s, names, row);
    let left = line_upto(s, names, row, row);
    let here = cell(s, names, row, row);
    let rr = right_right(s, row, row).text();
    let whole = diagram(s, names);
    // the line begins with the cells up to the diagonal one
    lemma_line_begins(s, names, row, row + 1, n);
    assert(line_upto(s, names, row, row + 1) =~= left + here);
    assert(above + (left + here) =~= (before + names[row]) + rr);
    lemma_begins_with_more(before + names[row], rr);
    // the diagram begins with the lines up to this one
    lemma_lines_begin(s, names, row + 1, n);
    let upto = lines_upto(s, names, row + 1);
    assert(upto =~= above + line(s, names, row)) by {
        if row == 0 {
            assert(above + line(s, names, row) =~= line(s, names, row));
        }
    }
    let start = line_upto(s, names, row, row + 1);
    assert(begins_with(upto, above + start)) by {
        let l = line(s, names, row);
        assert(l.subrange(0, start.len() as int) == start);
        assert(upto.subrange(0, (above + start).len() as int) =~= above + start);
    }
    lemma_begins_with_chain(upto, above + start, before + names[row]);
    lemma_begins_with_chain(whole, upto, before + names[row]);
    if names[row].len() > 0 {
        assert(whole.subrange(0, (before + names[row]).len() as int)[before.len() as int]
            == (before + names[row])[before.len() as int]);
    }
}

/// Rendering is a function of the successor sets and the labels in the order
/// drawn: two results of rendering the same graph in the same order are the
/// same text, character for character, or the same error.
pub proof fn theorem_same_inputs_same_output(
    first: Result<String, RenderError>,
    second: Result<String, RenderError>,
    s: Seq<Set<int>>,
    names: Seq<Seq<char>>,
)
    requires
        renders(first, outcome(s, names)),
        renders(second, outcome(s, names)),
    ensures
        first matches Ok(a) ==> second matches Ok(b) && a@ == b@,
        first matches Err(a) ==> second matches Err(b) && a@ == b@,
{
}

/// The order inside the rows of a table does not matter, nor how often a row
/// lists a successor: two tables whose rows hold the same entries stand for
/// the same successor sets, and so give the same outcome.
pub proof fn theorem_rows_are_sets(
    first: Seq<Vec<usize>>,
    second: Seq<Vec<usize>>,
    order: Seq<usize>,
    names: Seq<Seq<char>>,
)
    requires
        first.len() == second.len(),
        forall|i: int| 0 <= i < first.len() ==> same_entries(#[trigger] first[i]@, second[i]@),
    ensures
        successors(first) == successors(second),
        outcome(renumbered(successors(first), order), names) == outcome(
            renumbered(successors(second), order),
            names,
        ),
{
    assert forall|i: int| 0 <= i < first.len() implies successors(first)[i] =~= successors(
        second,
    )[i] by {
        assert(same_entries(first[i]@, second[i]@));
    }
    assert(successors(first) =~= successors(second));
}

/// A label stands in the centre of the diagonal cell of its own line and in
/// no other cell: whatever the order of the nodes, every label is drawn
/// once. The centre of any other cell is a rule, padding or nothing.
pub proof fn theorem_labels_drawn_once(s: Seq<Set<int>>, names: Seq<Seq<char>>, row: int, col: int)
    ensures
        centre(s, row, col) == Fill::Label <==> row == col,
        row == col ==> centre(s, row, col).text(names[col]) == names[col],
        row != col ==> {
            ||| centre(s, row, col).text(names[col]) == run('-', width(names[col]))
            ||| centre(s, row, col).text(names[col]) == run(' ', width(names[col]))
            ||| centre(s, row, col).text(names[col]) == Seq::<char>::empty()
        },
{
}

/// A node without edges: it has no successor and succeeds no node.
pub open spec fn isolated(s: Seq<Set<int>>, node: int) -> bool {
    &&& forall|other: int| !#[trigger] edge(s, node, other)
    &&& forall|other: int| !#[trigger] edge(s, other, node)
}

/// Swapping two isolated nodes that are neighbours in the order changes
/// nothing but the lines on which their two labels stand: every position has
/// the successors it had, so every rule and corner is drawn as before.
pub proof fn theorem_swap_isolated_neighbours(s: Seq<Set<int>>, order: Seq<usize>, at: int)
    requires
        0 <= at,
        at + 1 < order.len(),
        isolated(s, order[at] as int),
        isolated(s, order[at + 1] as int),
    ensures
        renumbered(s, order.update(at, order[at + 1]).update(at + 1, order[at])) == renumbered(
            s,
            order,
        ),
{
    let swapped = order.update(at, order[at + 1]).update(at + 1, order[at]);
    assert forall|i: int| 0 <= i < order.len() implies renumbered(s, swapped)[i] =~= renumbered(
        s,
        order,
    )[i] by {
        assert forall|c: int| 0 <= c < order.len() implies (edge(
            s,
            swapped[i] as int,
            swapped[c] as int,
        ) <==> edge(s, order[i] as int, order[c] as int)) by {
        }
    }
    assert(renumbered(s, swapped) =~= renumbered(s, order));
}

/// The first position that offends decides the outcome.
pub proof fn theorem_first_offender_rejected(s: Seq<Set<int>>, names: Seq<Seq<char>>, at: int)
    requires
        0 <= at < names.len(),
        offends(s, names, at),
        forall|i: int| 0 <= i < at ==> !offends(s, names, i),
    ensures
        outcome(s, names) == Err::<Seq<char>, Rejection>(rejection_at(s, names, at)),
{
    lemma_rejection_skips(s, names, 0, at);
}

/// Positions that do not offend are passed over.
proof fn lemma_rejection_skips(s: Seq<Set<int>>, names: Seq<Seq<char>>, from: int, at: int)
    requires
        0 <= from <= at < names.len(),
        offends(s, names, at),
        forall|i: int| from <= i < at ==> !offends(s, names, i),
    ensures
        rejection_from(s, names, from as nat) == Some(rejection_at(s, names, at)),
    decreases at - from,
{
    if from < at {
        lemma_rejection_skips(s, names, from + 1, at);
    }
}

/// A graph is drawn exactly when no position offends: no node succeeds
/// itself and no label is wider than a column can be.
pub proof fn theorem_drawn_iff_nothing_offends(s: Seq<Set<int>>, names: Seq<Seq<char>>)
    ensures
        outcome(s, names) is Ok <==> forall|i: int|
            0 <= i < names.len() ==> !offends(s, names, i),
        outcome(s, names) matches Ok(text) ==> text == diagram(s, names),
{
    if forall|i: int| 0 <= i < names.len() ==> !offends(s, names, i) {
        lemma_nothing_rejected(s, names, 0);
    } else {
        let bad = choose|i: int| 0 <= i < names.len() && offends(s, names, i);
        let first = first_offender(s, names, bad);
        lemma_first_offender(s, names, bad);
        theorem_first_offender_rejected(s, names, first);
    }
}

/// The first position that offends, given one that does.
pub open spec fn first_offender(s: Seq<Set<int>>, names: Seq<Seq<char>>, bad: int) -> int
    decreases bad,
{
    if bad <= 0 {
        0
    } else if exists|i: int| 0 <= i < bad && offends(s, names, i) {
        first_offender(s, names, choose|i: int| 0 <= i < bad && offends(s, names, i))
    } else {
        bad
    }
}

/// The first offender offends, and nothing before it does.
proof fn lemma_first_offender(s: Seq<Set<int>>, names: Seq<Seq<char>>, bad: int)
    requires
        0 <= bad < names.len(),
        offends(s, names, bad),
    ensures
        0 <= first_offender(s, names, bad) <= bad,
        offends(s, names, first_offender(s, names, bad)),
        forall|i: int| 0 <= i < first_offender(s, names, bad) ==> !offends(s, names, i),
    decreases bad,
{
    if bad > 0 && exists|i: int| 0 <= i < bad && offends(s, names, i) {
        lemma_first_offender(s, names, choose|i: int| 0 <= i < bad && offends(s, names, i));
    }
}

/// A graph with a self loop is never drawn. The error is the self loop of
/// the first looping node, by its label, unless a position before it
/// offends.
pub proof fn theorem_self_loop_rejected(s: Seq<Set<int>>, names: Seq<Seq<char>>, at: int)
    requires
        0 <= at < names.len(),
        edge(s, at, at),
    ensures
        outcome(s, names) is Err,
        (forall|i: int| 0 <= i < at ==> !offends(s, names, i)) ==> outcome(s, names) == Err::<
            Seq<char>,
            Rejection,
        >(Rejection::SelfLoop(names[at])),
{
    assert(offends(s, names, at));
    theorem_drawn_iff_nothing_offends(s, names);
    if forall|i: int| 0 <= i < at ==> !offends(s, names, i) {
        theorem_first_offender_rejected(s, names, at);
    }
}

/// A graph with a label wider than a column can be is never drawn. The
/// error names the first such label and its width, unless its node succeeds
/// itself or a position before it offends.
pub proof fn theorem_wide_label_rejected(s: Seq<Set<int>>, names: Seq<Seq<char>>, at: int)
    requires
        0 <= at < names.len(),
        width(names[at]) > MAX_COL_WIDTH,
    ensures
        outcome(s, names) is Err,
        !edge(s, at, at) && (forall|i: int| 0 <= i < at ==> !offends(s, names, i)) ==> outcome(
            s,
            names,
        ) == Err::<Seq<char>, Rejection>(
            Rejection::LabelTooWide(names[at], width(names[at])),
        ),
{
    assert(offends(s, names, at));
    theorem_drawn_iff_nothing_offends(s, names);
    if !edge(s, at, at) && (forall|i: int| 0 <= i < at ==> !offends(s, names, i)) {
        theorem_first_offender_rejected(s, names, at);
    }
}

/// An order that names every node once gives every node a position: the
/// numbers of the nodes it names are all the numbers, each once, and each
/// position carries the label of its node.
pub proof fn lemma_arrangement_numbers(labels: Seq<Seq<char>>, order: Seq<Seq<char>>)
    requires
        labels.len() <= usize::MAX,
        arrangement(labels, order),
    ensures
        permutation(numbers_of(labels, order)),
        forall|i: int|
            0 <= i < order.len() ==> labels[#[trigger] numbers_of(labels, order)[i] as int]
                == order[i],
{
    let numbers = numbers_of(labels, order);
    assert forall|i: int| 0 <= i < order.len() implies #[trigger] numbers[i] < labels.len()
        && labels[numbers[i] as int] == order[i] by {
        assert(labels.contains(order[i]));
        let j = choose|j: int| 0 <= j < labels.len() && labels[j] == order[i];
        let w = j as usize;
        assert(w < labels.len() && labels[w as int] == order[i]);
    }
}

/// A graph in which a node succeeds itself is never drawn, whatever the
/// order: the node has a position, and there the self loop is found. The
/// error is the self loop of that node, by its label, unless a position
/// before it offends.
pub proof fn theorem_looping_graph_rejected(
    labels: Seq<Seq<char>>,
    s: Seq<Set<int>>,
    order: Seq<Seq<char>>,
    node: int,
)
    requires
        labels.len() <= usize::MAX,
        arrangement(labels, order),
        0 <= node < labels.len(),
        edge(s, node, node),
    ensures
        outcome(renumbered(s, numbers_of(labels, order)), order) is Err,
        exists|at: int|
            {
                &&& 0 <= at < order.len()
                &&& #[trigger] order[at] == labels[node]
                &&& (forall|i: int|
                    0 <= i < at ==> !offends(
                        renumbered(s, numbers_of(labels, order)),
                        order,
                        i,
                    )) ==> outcome(renumbered(s, numbers_of(labels, order)), order) == Err::<
                    Seq<char>,
                    Rejection,
                >(Rejection::SelfLoop(labels[node]))
            },
{
    let numbers = numbers_of(labels, order);
    let drawn = renumbered(s, numbers);
    lemma_arrangement_numbers(labels, order);
    lemma_permutation_names_all(numbers, node as usize);
    let at = position(numbers, node as usize) as int;
    assert(numbers[at] == node);
    assert(edge(drawn, at, at));
    theorem_self_loop_rejected(drawn, order, at);
    assert(order[at] == labels[node]);
}

/// The diagram of no nodes is the empty text.
pub proof fn theorem_empty(s: Seq<Set<int>>)
    ensures
        outcome(s, Seq::<Seq<char>>::empty()) == Ok::<Seq<char>, Rejection>(Seq::empty()),
{
}

/// The diagram of a single node without edges is its label and nothing
/// else.
pub proof fn theorem_single(s: Seq<Set<int>>, name: Seq<char>)
    requires
        s.len() == 1,
        s[0] == Set::<int>::empty(),
        width(name) <= MAX_COL_WIDTH,
    ensures
        outcome(s, seq![name]) == Ok::<Seq<char>, Rejection>(name),
{
    let names = seq![name];
    assert(!edge_into(s, 0));
    assert(!edge_right_of(s, 0, 0));
    assert(!edge_right_from_above(s, 0, 0));
    assert(left_left(s, 0, 0) == Glyph::Nothing);
    assert(left_right(s, 0, 0) == Glyph::Nothing);
    assert(right_right(s, 0, 0) == Glyph::Nothing);
    assert(cell(s, names, 0, 0) =~= name);
    assert(line_upto(s, names, 0, 0) =~= Seq::<char>::empty());
    assert(line_upto(s, names, 0, 1) =~= name);
    assert(diagram(s, names) == name);
    lemma_nothing_rejected(s, names, 0);
}

} // verus!
