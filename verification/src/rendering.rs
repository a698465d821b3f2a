//! Rendering: the checks that reject a graph before anything is drawn, and
//! the diagram of a graph that passes them.

use crate::glyphs::{col_width, diagram, draw, texts, width, MAX_COL_WIDTH};
use crate::normalize::{closed_under, normalized, permutation, renumbered};
use crate::table::{edge, lists, successors};
use vstd::prelude::*;
use vstd::string::*;

verus! {

/// Why a graph was not drawn.
#[derive(Debug, PartialEq, Eq)]
pub enum RenderError {
    /// The node with this label lists itself as a direct successor.
    SelfLoop(String),
    /// This label is wider than a column can be; its width in bytes.
    LabelTooWide(String, usize),
}

/// A [`RenderError`] as plain values.
pub enum Rejection {
    SelfLoop(Seq<char>),
    LabelTooWide(Seq<char>, nat),
}

impl Rejection {
    /// The words in which the rejection is reported.
    pub open spec fn message(self) -> Seq<char> {
        match self {
            Rejection::SelfLoop(label) => "self loop on "@ + label,
            Rejection::LabelTooWide(_, _) => "label exceeds max column width"@,
        }
    }
}

impl View for RenderError {
    type V = Rejection;

    open spec fn view(&self) -> Rejection {
        match self {
            RenderError::SelfLoop(label) => Rejection::SelfLoop(label@),
            RenderError::LabelTooWide(label, w) => Rejection::LabelTooWide(label@, *w as nat),
        }
    }
}

impl RenderError {
    /// The words in which the error is reported.
    pub fn message(&self) -> (text: String)
        ensures
            text@ == self@.message(),
    {
        match self {
            RenderError::SelfLoop(label) => {
                let mut text = String::from_str("self loop on ");
                text.append(label.as_str());
                text
            },
            RenderError::LabelTooWide(_, _) => String::from_str("label exceeds max column width"),
        }
    }
}

/// Whether position `i` of a diagram is rejected: its node succeeds itself,
/// or its label is too wide.
pub open spec fn offends(s: Seq<Set<int>>, names: Seq<Seq<char>>, i: int) -> bool {
    edge(s, i, i) || width(names[i]) > MAX_COL_WIDTH
}

/// The rejection that position `i` gives rise to; a self loop comes before a
/// wide label.
pub open spec fn rejection_at(s: Seq<Set<int>>, names: Seq<Seq<char>>, i: int) -> Rejection {
    if edge(s, i, i) {
        Rejection::SelfLoop(names[i])
    } else {
        Rejection::LabelTooWide(names[i], width(names[i]))
    }
}

/// The rejection of the first position at or after `from` that offends.
pub open spec fn rejection_from(s: Seq<Set<int>>, names: Seq<Seq<char>>, from: nat) -> Option<
    Rejection,
>
    decreases names.len() - from,
{
    if from >= names.len() {
        None
    } else if offends(s, names, from as int) {
        Some(rejection_at(s, names, from as int))
    } else {
        rejection_from(s, names, from + 1)
    }
}

/// What rendering comes to for the successor sets `s` of a diagram whose
/// position `i` carries the label `names[i]`: the rejection of the first
/// position that offends, else the diagram.
pub open spec fn outcome(s: Seq<Set<int>>, names: Seq<Seq<char>>) -> Result<Seq<char>, Rejection> {
    match rejection_from(s, names, 0) {
        Some(e) => Err(e),
        None => Ok(diagram(s, names)),
    }
}

/// Whether a result of rendering is the given outcome.
pub open spec fn renders(r: Result<String, RenderError>, o: Result<Seq<char>, Rejection>) -> bool {
    match o {
        Ok(text) => r matches Ok(t) && t@ == text,
        Err(e) => r matches Err(x) && x@ == e,
    }
}

/// Where nothing offends from `from` on, nothing is rejected from there.
pub proof fn lemma_nothing_rejected(s: Seq<Set<int>>, names: Seq<Seq<char>>, from: nat)
    requires
        forall|i: int| from <= i < names.len() ==> !offends(s, names, i),
    ensures
        rejection_from(s, names, from) is None,
    decreases names.len() - from,
{
    if from < names.len() {
        lemma_nothing_rejected(s, names, from + 1);
    }
}

/// Renders the graph with the successor table `tree` over node numbers, its
/// nodes drawn in `order`, position `i` under the label `names[i]`.
///
/// The positions are checked in order, each for a self loop and then for the
/// width of its label; the first that offends is the error. Otherwise the
/// table is normalized and drawn.
pub fn formatted(tree: &Vec<Vec<usize>>, order: &Vec<usize>, names: &Vec<String>) -> (r: Result<
    String,
    RenderError,
>)
    requires
        tree.len() <= order.len(),
        names.len() == order.len(),
        permutation(order@),
        closed_under(tree@, order@.len()),
    ensures
        renders(r, outcome(renumbered(successors(tree@), order@), texts(names@))),
{
    let n = order.len();
    let ghost s = renumbered(successors(tree@), order@);
    let ghost t = texts(names@);
    for i in 0..n
        invariant
            n == order.len(),
            n == names.len(),
            tree.len() <= n,
            s == renumbered(successors(tree@), order@),
            t == texts(names@),
            rejection_from(s, t, 0) == rejection_from(s, t, i as nat),
            forall|j: int| 0 <= j < i ==> width(#[trigger] names[j]@) <= MAX_COL_WIDTH,
    {
        let node = order[i];
        assert(edge(s, i as int, i as int) == edge(successors(tree@), node as int, node as int));
        assert(t[i as int] == names[i as int]@);
        if node < tree.len() && lists(&tree[node], node) {
            return Err(RenderError::SelfLoop(names[i].clone()));
        }
        let w = col_width(&names[i]);
        if w > MAX_COL_WIDTH {
            return Err(RenderError::LabelTooWide(names[i].clone(), w));
        }
    }
    let norm = normalized(tree, order);
    Ok(draw(&norm, names))
}

} // verus!
