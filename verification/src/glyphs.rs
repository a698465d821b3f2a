//! The glyph writer: which fragments each cell of the grid is made of, and
//! the text that the cells add up to.
//!
//! A cell is four fragments side by side: a left pair of at most one
//! character each, a centre as wide as the label of the cell's column, and a
//! right fragment of at most one character. The fragments are chosen by
//! decision tables over the questions of [`crate::table`].

use crate::table::{
    anywhere_is_dsucc_of_col, below_is_dsucc_of_col, col_is_dsucc_of_above, col_is_dsucc_of_row,
    edge, edge_from_above, edge_from_below, edge_into, edge_left_of, edge_right_from_above,
    edge_right_of, left_is_dsucc_of_row, right_is_dsucc_of_above, right_is_dsucc_of_row,
    row_is_dpred_of_left, successors,
};
use vstd::prelude::*;
use vstd::string::*;
use vstd::utf8::encode_utf8;

verus! {

/// The widest label, in bytes, that a column can carry.
pub const MAX_COL_WIDTH: usize = 10;

/// A fragment of at most one character.
#[derive(Clone, Copy, Debug, PartialEq, Eq)]
pub enum Glyph {
    Nothing,
    Padding,
    Junction,
    Vertical,
    Horizontal,
}

/// What fills the centre of a cell.
#[derive(Clone, Copy, Debug, PartialEq, Eq)]
pub enum Fill {
    Nothing,
    Padding,
    Horizontal,
    Label,
}

/// `w` copies of `c`.
pub open spec fn run(c: char, w: nat) -> Seq<char> {
    Seq::new(w, |i: int| c)
}

/// The width of a column: the length of its label in bytes.
pub open spec fn width(name: Seq<char>) -> nat {
    encode_utf8(name).len()
}

impl Glyph {
    pub open spec fn text(self) -> Seq<char> {
        match self {
            Glyph::Nothing => Seq::empty(),
            Glyph::Padding => seq![' '],
            Glyph::Junction => seq!['+'],
            Glyph::Vertical => seq!['|'],
            Glyph::Horizontal => seq!['-'],
        }
    }

    pub fn as_str(self) -> (s: &'static str)
        ensures
            s@ == self.text(),
    {
        proof {
            reveal_strlit("");
            reveal_strlit(" ");
            reveal_strlit("+");
            reveal_strlit("|");
            reveal_strlit("-");
        }
        let s = match self {
            Glyph::Nothing => "",
            Glyph::Padding => " ",
            Glyph::Junction => "+",
            Glyph::Vertical => "|",
            Glyph::Horizontal => "-",
        };
        assert(s@ =~= self.text());
        s
    }
}

impl Fill {
    /// The text of a centre in a column whose label is `name`.
    pub open spec fn text(self, name: Seq<char>) -> Seq<char> {
        match self {
            Fill::Nothing => Seq::empty(),
            Fill::Padding => run(' ', width(name)),
            Fill::Horizontal => run('-', width(name)),
            Fill::Label => name,
        }
    }
}

/// The left-left fragment of the cell at (`row`, `col`).
pub open spec fn left_left(s: Seq<Set<int>>, row: int, col: int) -> Glyph {
    if col == 0 && !edge_into(s, col) {
        Glyph::Nothing
    } else if col < row {
        if edge(s, row, col) {
            Glyph::Junction
        } else if edge_from_below(s, row, col) {
            Glyph::Vertical
        } else if edge_left_of(s, row, col) {
            Glyph::Horizontal
        } else {
            Glyph::Padding
        }
    } else if col == row {
        if edge_into(s, col) {
            Glyph::Junction
        } else if edge_left_of(s, row, col) {
            Glyph::Horizontal
        } else {
            Glyph::Padding
        }
    } else {
        if edge(s, row, col) {
            Glyph::Junction
        } else if edge_from_above(s, row, col) {
            Glyph::Vertical
        } else if edge_right_of(s, row, col) {
            Glyph::Horizontal
        } else if edge_right_from_above(s, row, col) {
            Glyph::Padding
        } else {
            Glyph::Nothing
        }
    }
}

/// The left-right fragment of the cell at (`row`, `col`).
pub open spec fn left_right(s: Seq<Set<int>>, row: int, col: int) -> Glyph {
    if col == 0 && !edge_into(s, col) {
        Glyph::Nothing
    } else if col < row {
        if edge(s, row, col) || edge_left_of(s, row, col) {
            Glyph::Horizontal
        } else {
            Glyph::Padding
        }
    } else if col == row {
        if edge_into(s, col) || edge_left_of(s, row, col) {
            Glyph::Horizontal
        } else if col != 0 {
            Glyph::Padding
        } else {
            Glyph::Nothing
        }
    } else {
        if edge_right_of(s, row, col) {
            Glyph::Horizontal
        } else if edge_right_from_above(s, row, col) {
            Glyph::Padding
        } else {
            Glyph::Nothing
        }
    }
}

/// What fills the centre of the cell at (`row`, `col`).
pub open spec fn centre(s: Seq<Set<int>>, row: int, col: int) -> Fill {
    if col < row {
        if edge(s, row, col) || edge_left_of(s, row, col) {
            Fill::Horizontal
        } else {
            Fill::Padding
        }
    } else if col == row {
        Fill::Label
    } else {
        if edge_right_of(s, row, col) {
            Fill::Horizontal
        } else if edge_right_from_above(s, row, col) {
            Fill::Padding
        } else {
            Fill::Nothing
        }
    }
}

/// The right-right fragment of the cell at (`row`, `col`).
pub open spec fn right_right(s: Seq<Set<int>>, row: int, col: int) -> Glyph {
    if col < row {
        if edge(s, row, col) || edge_left_of(s, row, col) {
            Glyph::Horizontal
        } else {
            Glyph::Padding
        }
    } else {
        if edge_right_of(s, row, col) {
            Glyph::Horizontal
        } else if edge_right_from_above(s, row, col) {
            Glyph::Padding
        } else {
            Glyph::Nothing
        }
    }
}

/// The text of the cell at (`row`, `col`): its four fragments, left to right.
pub open spec fn cell(s: Seq<Set<int>>, names: Seq<Seq<char>>, row: int, col: int) -> Seq<char> {
    left_left(s, row, col).text() + left_right(s, row, col).text() + centre(s, row, col).text(
        names[col],
    ) + right_right(s, row, col).text()
}

/// The first `cols` cells of line `row`.
pub open spec fn line_upto(s: Seq<Set<int>>, names: Seq<Seq<char>>, row: int, cols: int) -> Seq<
    char,
>
    decreases cols,
{
    if cols <= 0 {
        Seq::empty()
    } else {
        line_upto(s, names, row, cols - 1) + cell(s, names, row, cols - 1)
    }
}

/// Line `row` of the diagram: one cell per column.
pub open spec fn line(s: Seq<Set<int>>, names: Seq<Seq<char>>, row: int) -> Seq<char> {
    line_upto(s, names, row, names.len() as int)
}

/// The first `rows` lines, with one newline between consecutive lines.
pub open spec fn lines_upto(s: Seq<Set<int>>, names: Seq<Seq<char>>, rows: int) -> Seq<char>
    decreases rows,
{
    if rows <= 0 {
        Seq::empty()
    } else if rows == 1 {
        line(s, names, 0)
    } else {
        lines_upto(s, names, rows - 1) + seq!['\n'] + line(s, names, rows - 1)
    }
}

/// The whole diagram: one line per node, no newline after the last.
pub open spec fn diagram(s: Seq<Set<int>>, names: Seq<Seq<char>>) -> Seq<char> {
    lines_upto(s, names, names.len() as int)
}

/// The labels of a list of names, as plain text.
pub open spec fn texts(names: Seq<String>) -> Seq<Seq<char>> {
    Seq::new(names.len(), |i: int| names[i]@)
}

/// The left-left fragment of a cell.
pub fn ll(norm: &Vec<Vec<usize>>, row: usize, col: usize) -> (g: Glyph)
    requires
        row < norm.len(),
    ensures
        g == left_left(successors(norm@), row as int, col as int),
{
    if col == 0 && !anywhere_is_dsucc_of_col(norm, row, col) {
        Glyph::Nothing
    } else if col < row {
        if col_is_dsucc_of_row(norm, row, col) {
            Glyph::Junction
        } else if below_is_dsucc_of_col(norm, row, col) {
            Glyph::Vertical
        } else if row_is_dpred_of_left(norm, row, col) {
            Glyph::Horizontal
        } else {
            Glyph::Padding
        }
    } else if col == row {
        if anywhere_is_dsucc_of_col(norm, row, col) {
            Glyph::Junction
        } else if left_is_dsucc_of_row(norm, row, col) {
            Glyph::Horizontal
        } else if right_is_dsucc_of_above(norm, row, col) {
            Glyph::Padding
        } else if col != 0 {
            Glyph::Padding
        } else {
            Glyph::Nothing
        }
    } else if col_is_dsucc_of_row(norm, row, col) {
        Glyph::Junction
    } else if col_is_dsucc_of_above(norm, row, col) {
        Glyph::Vertical
    } else if right_is_dsucc_of_row(norm, row, col) {
        Glyph::Horizontal
    } else if right_is_dsucc_of_above(norm, row, col) {
        Glyph::Padding
    } else {
        Glyph::Nothing
    }
}

/// The left-right fragment of a cell.
pub fn lr(norm: &Vec<Vec<usize>>, row: usize, col: usize) -> (g: Glyph)
    requires
        row < norm.len(),
    ensures
        g == left_right(successors(norm@), row as int, col as int),
{
    if col == 0 && !anywhere_is_dsucc_of_col(norm, row, col) {
        Glyph::Nothing
    } else if col < row {
        if col_is_dsucc_of_row(norm, row, col) {
            Glyph::Horizontal
        } else if row_is_dpred_of_left(norm, row, col) {
            Glyph::Horizontal
        } else if below_is_dsucc_of_col(norm, row, col) {
            Glyph::Padding
        } else {
            Glyph::Padding
        }
    } else if col == row {
        if anywhere_is_dsucc_of_col(norm, row, col) {
            Glyph::Horizontal
        } else if left_is_dsucc_of_row(norm, row, col) {
            Glyph::Horizontal
        } else if right_is_dsucc_of_above(norm, row, col) {
            Glyph::Padding
        } else if col != 0 {
            Glyph::Padding
        } else {
            Glyph::Nothing
        }
    } else if right_is_dsucc_of_row(norm, row, col) {
        Glyph::Horizontal
    } else if right_is_dsucc_of_above(norm, row, col) {
        Glyph::Padding
    } else {
        Glyph::Nothing
    }
}

/// What fills the centre of a cell.
pub fn cc(norm: &Vec<Vec<usize>>, row: usize, col: usize) -> (f: Fill)
    requires
        row < norm.len(),
    ensures
        f == centre(successors(norm@), row as int, col as int),
{
    if col < row {
        if col_is_dsucc_of_row(norm, row, col) {
            Fill::Horizontal
        } else if row_is_dpred_of_left(norm, row, col) {
            Fill::Horizontal
        } else if below_is_dsucc_of_col(norm, row, col) {
            Fill::Padding
        } else {
            Fill::Padding
        }
    } else if col == row {
        Fill::Label
    } else if right_is_dsucc_of_row(norm, row, col) {
        Fill::Horizontal
    } else if right_is_dsucc_of_above(norm, row, col) {
        Fill::Padding
    } else {
        Fill::Nothing
    }
}

/// The right-right fragment of a cell.
pub fn rr(norm: &Vec<Vec<usize>>, row: usize, col: usize) -> (g: Glyph)
    requires
        row < norm.len(),
    ensures
        g == right_right(successors(norm@), row as int, col as int),
{
    if col < row {
        if col_is_dsucc_of_row(norm, row, col) {
            Glyph::Horizontal
        } else if row_is_dpred_of_left(norm, row, col) {
            Glyph::Horizontal
        } else if below_is_dsucc_of_col(norm, row, col) {
            Glyph::Padding
        } else {
            Glyph::Padding
        }
    } else if col == row {
        if right_is_dsucc_of_row(norm, row, col) {
            Glyph::Horizontal
        } else if right_is_dsucc_of_above(norm, row, col) {
            Glyph::Padding
        } else {
            Glyph::Nothing
        }
    } else if right_is_dsucc_of_row(norm, row, col) {
        Glyph::Horizontal
    } else if right_is_dsucc_of_above(norm, row, col) {
        Glyph::Padding
    } else {
        Glyph::Nothing
    }
}

/// The length of a label in bytes.
pub fn col_width(name: &String) -> (w: usize)
    ensures
        w == width(name@),
{
    name.as_str().as_bytes().len()
}

/// A horizontal rule of `w` characters.
fn horizontals(w: usize) -> (s: &'static str)
    requires
        w <= MAX_COL_WIDTH,
    ensures
        s@ == run('-', w as nat),
{
    let all = "----------";
    proof {
        reveal_strlit("----------");
    }
    let s = all.substring_ascii(0, w);
    assert(s@ =~= run('-', w as nat));
    s
}

/// `w` characters of padding.
fn paddings(w: usize) -> (s: &'static str)
    requires
        w <= MAX_COL_WIDTH,
    ensures
        s@ == run(' ', w as nat),
{
    let all = "          ";
    proof {
        reveal_strlit("          ");
    }
    let s = all.substring_ascii(0, w);
    assert(s@ =~= run(' ', w as nat));
    s
}

/// Appends the cell at (`row`, `col`) to `out`: its four fragments, left to
/// right.
pub fn write_cell(
    out: &mut String,
    norm: &Vec<Vec<usize>>,
    names: &Vec<String>,
    row: usize,
    col: usize,
)
    requires
        norm.len() == names.len(),
        row < names.len(),
        col < names.len(),
        width(names[col as int]@) <= MAX_COL_WIDTH,
    ensures
        final(out)@ == old(out)@ + cell(successors(norm@), texts(names@), row as int, col as int),
{
    let col_width = col_width(&names[col]);
    let ll = ll(norm, row, col);
    let lr = lr(norm, row, col);
    let cc = cc(norm, row, col);
    let rr = rr(norm, row, col);
    let ghost name = names[col as int]@;
    out.append(ll.as_str());
    out.append(lr.as_str());
    let ghost halfway = out@;
    match cc {
        Fill::Nothing => {},
        Fill::Padding => {
            out.append(paddings(col_width));
        },
        Fill::Horizontal => {
            out.append(horizontals(col_width));
        },
        Fill::Label => {
            out.append(names[col].as_str());
        },
    }
    assert(out@ =~= halfway + cc.text(name));
    out.append(rr.as_str());
    assert(texts(names@)[col as int] == name);
    assert(out@ =~= old(out)@ + (ll.text() + lr.text() + cc.text(name) + rr.text()));
}

/// Writes the diagram of a normalized table whose column `i` carries the
/// label `names[i]`: row by row, cell by cell.
pub fn draw(norm: &Vec<Vec<usize>>, names: &Vec<String>) -> (out: String)
    requires
        norm.len() == names.len(),
        forall|i: int| 0 <= i < names.len() ==> width(#[trigger] names[i]@) <= MAX_COL_WIDTH,
    ensures
        out@ == diagram(successors(norm@), texts(names@)),
{
    let n = names.len();
    let ghost s = successors(norm@);
    let ghost t = texts(names@);
    let mut result = String::new();
    for row in 0..n
        invariant
            n == names.len(),
            n == norm.len(),
            s == successors(norm@),
            t == texts(names@),
            t.len() == n,
            forall|i: int| 0 <= i < names.len() ==> width(#[trigger] names[i]@) <= MAX_COL_WIDTH,
            result@ == lines_upto(s, t, row as int),
    {
        let ghost before = result@;
        if row != 0 {
            proof {
                reveal_strlit("\n");
            }
            result.append("\n");
        }
        let ghost start = result@;
        assert(result@ =~= start + line_upto(s, t, row as int, 0));
        for col in 0..n
            invariant
                n == names.len(),
                n == norm.len(),
                row < n,
                s == successors(norm@),
                t == texts(names@),
                forall|i: int|
                    0 <= i < names.len() ==> width(#[trigger] names[i]@) <= MAX_COL_WIDTH,
                result@ == start + line_upto(s, t, row as int, col as int),
        {
            write_cell(&mut result, norm, names, row, col);
            assert(result@ =~= start + line_upto(s, t, row as int, col as int + 1));
        }
        proof {
            assert(result@ == start + line(s, t, row as int));
            if row == 0 {
                assert(start =~= Seq::<char>::empty());
                assert(result@ =~= line(s, t, 0));
            } else {
                assert(start =~= before + seq!['\n']);
            }
            assert(result@ =~= lines_upto(s, t, row as int + 1));
        }
    }
    result
}

} // verus!
