//! Graphs from what a DOT text mentions.
//!
//! The text itself is read elsewhere. What counts here is what its
//! statements mention, in the order in which they stand, and the edges they
//! come to: from these the nodes are numbered, the edges are looked up, and
//! the quotes are taken off the names.

use crate::graph::{
    borrowed_texts, distinct, label_texts, normalize, number_of, place, Graph,
};
use crate::label::Label;
use crate::meeting::{first_occurrences, lemma_first_occurrences_push};
use crate::normalize::closed_under;
use crate::table::{edge, listed, successors};
use vstd::prelude::*;
use vstd::string::*;

verus! {

/// What a statement of a DOT text mentions. An edge statement mentions its
/// tail and its head; a chain of edges mentions each of its edges in turn.
pub enum Mention {
    /// A node statement.
    Node { id: String, port: bool },
    /// The node an edge starts from.
    Tail { id: String, port: bool },
    /// The node an edge leads to.
    Head { id: String, port: bool },
    /// A subgraph that an edge starts from.
    TailSubgraph,
    /// A subgraph that an edge leads to.
    HeadSubgraph,
    /// An attribute statement.
    Attributes,
    /// An alias statement.
    IdEq,
    /// A subgraph statement.
    Subgraph,
}

/// Why a DOT text gives no graph.
#[derive(Clone, Copy, Debug, PartialEq, Eq)]
pub enum DotError {
    NodeHasPort,
    EdgeFromSubgraph,
    EdgeToSubgraph,
    IdEq,
    Subgraph,
    UnquotedId,
    /// An edge starts from or leads to a node that no statement mentions.
    StrayEdge,
    /// Two nodes have the same name once the quotes are off.
    RepeatedId,
}

impl DotError {
    /// The words in which the error is reported.
    pub open spec fn words(self) -> Seq<char> {
        match self {
            DotError::NodeHasPort => "Node has port"@,
            DotError::EdgeFromSubgraph => "Unsupported edge from Subgraph"@,
            DotError::EdgeToSubgraph => "Unsupported edge to Subgraph"@,
            DotError::IdEq => "Unsupported IDEq"@,
            DotError::Subgraph => "Unsupported Subgraph"@,
            DotError::UnquotedId => "Nodes must have double quoted id"@,
            DotError::StrayEdge => "Edge between unknown nodes"@,
            DotError::RepeatedId => "Nodes must have different ids"@,
        }
    }

    /// The words in which the error is reported.
    pub fn message(&self) -> (text: String)
        ensures
            text@ == self.words(),
    {
        match self {
            DotError::NodeHasPort => String::from_str("Node has port"),
            DotError::EdgeFromSubgraph => String::from_str("Unsupported edge from Subgraph"),
            DotError::EdgeToSubgraph => String::from_str("Unsupported edge to Subgraph"),
            DotError::IdEq => String::from_str("Unsupported IDEq"),
            DotError::Subgraph => String::from_str("Unsupported Subgraph"),
            DotError::UnquotedId => String::from_str("Nodes must have double quoted id"),
            DotError::StrayEdge => String::from_str("Edge between unknown nodes"),
            DotError::RepeatedId => String::from_str("Nodes must have different ids"),
        }
    }
}

/// The error that a mention gives rise to where it stands.
pub open spec fn fault_of(m: Mention) -> Option<DotError> {
    match m {
        Mention::Node { id, port } => if port {
            Some(DotError::NodeHasPort)
        } else {
            None
        },
        Mention::Tail { id, port } => if port {
            Some(DotError::NodeHasPort)
        } else {
            None
        },
        Mention::Head { id, port } => None,
        Mention::TailSubgraph => Some(DotError::EdgeFromSubgraph),
        Mention::HeadSubgraph => Some(DotError::EdgeToSubgraph),
        Mention::Attributes => None,
        Mention::IdEq => Some(DotError::IdEq),
        Mention::Subgraph => Some(DotError::Subgraph),
    }
}

/// The error of the first mention at or after `from` that gives rise to one.
pub open spec fn first_fault(mentions: Seq<Mention>, from: nat) -> Option<DotError>
    decreases mentions.len() - from,
{
    if from >= mentions.len() {
        None
    } else if fault_of(mentions[from as int]) is Some {
        fault_of(mentions[from as int])
    } else {
        first_fault(mentions, from + 1)
    }
}

/// Whether a mention is the head of an edge with a port.
pub open spec fn head_with_port(m: Mention) -> bool {
    m matches Mention::Head { id, port } && port
}

/// The nodes that are numbered where they are mentioned: those of the node
/// statements and the tails of the edges.
pub open spec fn named_at_once(mentions: Seq<Mention>) -> Seq<Seq<char>>
    decreases mentions.len(),
{
    if mentions.len() == 0 {
        Seq::empty()
    } else {
        match mentions.last() {
            Mention::Node { id, port } => named_at_once(mentions.drop_last()).push(id@),
            Mention::Tail { id, port } => named_at_once(mentions.drop_last()).push(id@),
            _ => named_at_once(mentions.drop_last()),
        }
    }
}

/// The nodes that are numbered after all the others: the heads of the edges.
pub open spec fn named_later(mentions: Seq<Mention>) -> Seq<Seq<char>>
    decreases mentions.len(),
{
    if mentions.len() == 0 {
        Seq::empty()
    } else {
        match mentions.last() {
            Mention::Head { id, port } => named_later(mentions.drop_last()).push(id@),
            _ => named_later(mentions.drop_last()),
        }
    }
}

/// The nodes of a DOT text in the order in which they should appear: as the
/// node statements and the tails of the edges mention them, followed by the
/// heads of the edges. The first mention that is not supported is the error;
/// the port of a head is found last.
pub open spec fn order_of(mentions: Seq<Mention>) -> Result<Seq<Seq<char>>, DotError> {
    if first_fault(mentions, 0) is Some {
        Err(first_fault(mentions, 0)->0)
    } else if exists|i: int| 0 <= i < mentions.len() && head_with_port(mentions[i]) {
        Err(DotError::NodeHasPort)
    } else {
        Ok(first_occurrences(named_at_once(mentions) + named_later(mentions)))
    }
}

/// Returns the nodes in the order in which they should appear.
pub fn nodes_in_order(mentions: &Vec<Mention>) -> (r: Result<Vec<String>, DotError>)
    ensures
        match order_of(mentions@) {
            Ok(names) => r matches Ok(nodes) && label_texts(nodes@) == names,
            Err(e) => r == Err::<Vec<String>, DotError>(e),
        },
{
    let mut nodes: Vec<String> = Vec::new();
    let mut deferred: Vec<String> = Vec::new();
    let mut late_port = false;
    let n = mentions.len();
    assert(mentions@.take(0) =~= Seq::<Mention>::empty());
    for i in 0..n
        invariant
            n == mentions.len(),
            first_fault(mentions@, 0) == first_fault(mentions@, i as nat),
            late_port <==> exists|k: int| 0 <= k < i && head_with_port(mentions[k]),
            distinct(label_texts(nodes@)),
            label_texts(nodes@) == first_occurrences(named_at_once(mentions@.take(i as int))),
            label_texts(deferred@) == named_later(mentions@.take(i as int)),
    {
        let ghost seen = mentions@.take(i as int);
        let ghost now = mentions@.take(i as int + 1);
        let ghost before = label_texts(deferred@);
        proof {
            assert(now.drop_last() =~= seen);
            assert(now.last() == mentions[i as int]);
        }
        match &mentions[i] {
            Mention::Node { id, port } => {
                if *port {
                    return Err(DotError::NodeHasPort);
                }
                proof {
                    lemma_first_occurrences_push(named_at_once(seen), id@);
                }
                normalize(&mut nodes, id.clone());
            },
            Mention::Tail { id, port } => {
                if *port {
                    return Err(DotError::NodeHasPort);
                }
                proof {
                    lemma_first_occurrences_push(named_at_once(seen), id@);
                }
                normalize(&mut nodes, id.clone());
            },
            Mention::Head { id, port } => {
                if *port {
                    late_port = true;
                }
                deferred.push(id.clone());
                assert(label_texts(deferred@) =~= before.push(id@));
            },
            Mention::TailSubgraph => {
                return Err(DotError::EdgeFromSubgraph);
            },
            Mention::HeadSubgraph => {
                return Err(DotError::EdgeToSubgraph);
            },
            Mention::Attributes => {},
            Mention::IdEq => {
                return Err(DotError::IdEq);
            },
            Mention::Subgraph => {
                return Err(DotError::Subgraph);
            },
        }
    }
    if late_port {
        return Err(DotError::NodeHasPort);
    }
    let ghost at_once = named_at_once(mentions@);
    let ghost later = label_texts(deferred@);
    proof {
        assert(mentions@.take(n as int) =~= mentions@);
        assert(at_once + later.take(0) =~= at_once);
    }
    let m = deferred.len();
    for k in 0..m
        invariant
            m == deferred.len(),
            later == label_texts(deferred@),
            distinct(label_texts(nodes@)),
            label_texts(nodes@) == first_occurrences(at_once + later.take(k as int)),
    {
        proof {
            assert(at_once + later.take(k as int + 1) =~= (at_once + later.take(k as int)).push(
                later[k as int],
            ));
            lemma_first_occurrences_push(at_once + later.take(k as int), later[k as int]);
        }
        normalize(&mut nodes, deferred[k].clone());
    }
    assert(later.take(m as int) =~= later);
    Ok(nodes)
}

/// Both ends of edge `k` are among `names`.
pub open spec fn known_ends(names: Seq<Seq<char>>, edges: Seq<(String, String)>, k: int) -> bool {
    names.contains(edges[k].0@) && names.contains(edges[k].1@)
}

/// Some edge leads from `from` to `to`.
pub open spec fn joins(edges: Seq<(String, String)>, from: Seq<char>, to: Seq<char>) -> bool {
    exists|k: int| 0 <= k < edges.len() && (#[trigger] edges[k]).0@ == from && edges[k].1@ == to
}

/// The numbers of the heads of the edges that start from node `i`, as the
/// edges stand.
pub open spec fn heads_from(names: Seq<Seq<char>>, edges: Seq<(String, String)>, i: int) -> Seq<
    usize,
>
    decreases edges.len(),
{
    if edges.len() == 0 {
        Seq::empty()
    } else if edges.last().0@ == names[i] {
        heads_from(names, edges.drop_last(), i).push(number_of(names, edges.last().1@))
    } else {
        heads_from(names, edges.drop_last(), i)
    }
}

/// Looks the edges up among the nodes: row `i` lists the numbers of the
/// nodes that an edge leads to from node `i`, as the edges stand. An edge
/// with an end that is no node is an error.
pub fn heads(nodes: &Vec<String>, edges: &Vec<(String, String)>) -> (r: Result<
    Vec<Vec<usize>>,
    DotError,
>)
    requires
        distinct(label_texts(nodes@)),
    ensures
        r is Ok <==> forall|k: int|
            0 <= k < edges.len() ==> known_ends(label_texts(nodes@), edges@, k),
        r matches Err(e) ==> e == DotError::StrayEdge,
        r matches Ok(rows) ==> {
            &&& rows.len() == nodes.len()
            &&& closed_under(rows@, nodes@.len())
            &&& forall|i: int|
                0 <= i < nodes.len() ==> (#[trigger] rows[i])@ == heads_from(
                    label_texts(nodes@),
                    edges@,
                    i,
                )
            &&& forall|i: int, c: int|
                0 <= i < nodes.len() ==> (#[trigger] listed(rows[i]@, c) <==> 0 <= c < nodes.len()
                    && joins(edges@, nodes[i]@, nodes[c]@))
        },
{
    let n = nodes.len();
    let ghost names = label_texts(nodes@);
    let mut rows: Vec<Vec<usize>> = Vec::new();
    for i in 0..n
        invariant
            rows.len() == i,
            forall|j: int| 0 <= j < i ==> (#[trigger] rows[j])@ == Seq::<usize>::empty(),
    {
        rows.push(Vec::new());
    }
    assert(edges@.take(0) =~= Seq::<(String, String)>::empty());
    for k in 0..edges.len()
        invariant
            n == nodes.len(),
            names == label_texts(nodes@),
            distinct(names),
            rows.len() == n,
            closed_under(rows@, nodes@.len()),
            forall|q: int| 0 <= q < k ==> known_ends(names, edges@, q),
            forall|i: int|
                0 <= i < n ==> (#[trigger] rows[i])@ == heads_from(names, edges@.take(k as int), i),
            forall|i: int, c: int|
                0 <= i < n ==> (#[trigger] listed(rows[i]@, c) <==> 0 <= c < n && joins(
                    edges@.take(k as int),
                    nodes[i]@,
                    nodes[c]@,
                )),
    {
        let ghost seen = edges@.take(k as int);
        let ghost now = edges@.take(k as int + 1);
        let ghost before = rows@;
        let from = place(nodes, &edges[k].0);
        let to = place(nodes, &edges[k].1);
        match (from, to) {
            (Some(f), Some(t)) => {
                rows[f].push(t);
                proof {
                    assert(names[f as int] == edges[k as int].0@);
                    assert(names[t as int] == edges[k as int].1@);
                    assert(names.contains(edges[k as int].0@));
                    assert(names.contains(edges[k as int].1@));
                    assert(now[k as int] == edges[k as int]);
                    assert(now.drop_last() =~= seen);
                    assert(number_of(names, edges[k as int].1@) == t);
                    assert forall|i: int| 0 <= i < n implies (#[trigger] rows[i])@ == heads_from(
                        names,
                        now,
                        i,
                    ) by {
                        if i != f {
                            assert(names[i] != names[f as int]);
                            assert(rows[i] == before[i]);
                        }
                    }
                    assert forall|i: int, c: int| 0 <= i < n implies (#[trigger] listed(
                        rows[i]@,
                        c,
                    ) <==> 0 <= c < n && joins(now, nodes[i]@, nodes[c]@)) by {
                        let was = listed(before[i]@, c);
                        assert(was <==> 0 <= c < n && joins(seen, nodes[i]@, nodes[c]@));
                        if listed(rows[i]@, c) {
                            let q = choose|q: int| 0 <= q < rows[i]@.len() && rows[i]@[q] == c;
                            if i == f && q == before[i]@.len() {
                                assert(c == t);
                                assert(now[k as int].0@ == nodes[i]@ && now[k as int].1@
                                    == nodes[c]@);
                            } else {
                                assert(before[i]@[q] == c);
                                assert(was);
                                let e = choose|e: int|
                                    0 <= e < seen.len() && (#[trigger] seen[e]).0@ == nodes[i]@
                                        && seen[e].1@ == nodes[c]@;
                                assert(now[e] == seen[e]);
                            }
                        }
                        if 0 <= c < n && joins(now, nodes[i]@, nodes[c]@) {
                            let e = choose|e: int|
                                0 <= e < now.len() && (#[trigger] now[e]).0@ == nodes[i]@
                                    && now[e].1@ == nodes[c]@;
                            if e < k {
                                assert(seen[e] == now[e]);
                                assert(was);
                                let q = choose|q: int|
                                    0 <= q < before[i]@.len() && before[i]@[q] == c;
                                assert(rows[i]@[q] == c);
                            } else {
                                assert(names[i] == names[f as int]);
                                assert(names[c] == names[t as int]);
                                assert(i == f && c == t);
                                assert(rows[i]@[before[i]@.len() as int] == c);
                            }
                        }
                    }
                }
            },
            _ => {
                assert(!known_ends(names, edges@, k as int));
                return Err(DotError::StrayEdge);
            },
        }
    }
    assert(edges@.take(edges@.len() as int) =~= edges@);
    Ok(rows)
}

/// A name without the quotes that lead it.
pub open spec fn without_leading_quotes(name: Seq<char>) -> Seq<char>
    decreases name.len(),
{
    if name.len() > 0 && name.first() == '"' {
        without_leading_quotes(name.drop_first())
    } else {
        name
    }
}

/// A name without the quotes that end it.
pub open spec fn without_trailing_quotes(name: Seq<char>) -> Seq<char>
    decreases name.len(),
{
    if name.len() > 0 && name.last() == '"' {
        without_trailing_quotes(name.drop_last())
    } else {
        name
    }
}

/// A name without the quotes around it: all that lead it and all that end
/// it.
pub open spec fn unquoted(name: Seq<char>) -> Seq<char> {
    without_trailing_quotes(without_leading_quotes(name))
}

/// Takes the quotes off a name.
pub fn unquote(id: &String) -> (r: String)
    ensures
        r@ == unquoted(id@),
{
    let s = id.as_str();
    let n = s.unicode_len();
    let mut lo: usize = 0;
    assert(id@.subrange(0, n as int) =~= id@);
    while lo < n && s.get_char(lo) == '"'
        invariant
            s@ == id@,
            n == id@.len(),
            lo <= n,
            without_leading_quotes(id@) == without_leading_quotes(id@.subrange(lo as int, n as int)),
        decreases n - lo,
    {
        assert(id@.subrange(lo as int, n as int).drop_first() =~= id@.subrange(
            lo as int + 1,
            n as int,
        ));
        lo += 1;
    }
    let ghost rest = id@.subrange(lo as int, n as int);
    assert(without_leading_quotes(id@) == rest);
    let mut hi: usize = n;
    while hi > lo && s.get_char(hi - 1) == '"'
        invariant
            s@ == id@,
            n == id@.len(),
            lo <= hi <= n,
            without_trailing_quotes(rest) == without_trailing_quotes(
                id@.subrange(lo as int, hi as int),
            ),
        decreases hi - lo,
    {
        assert(id@.subrange(lo as int, hi as int).drop_last() =~= id@.subrange(
            lo as int,
            hi as int - 1,
        ));
        hi -= 1;
    }
    assert(without_trailing_quotes(rest) == id@.subrange(lo as int, hi as int));
    String::from_str(s.substring_char(lo, hi))
}

/// The names of a list without their quotes.
pub open spec fn all_unquoted(names: Seq<Seq<char>>) -> Seq<Seq<char>> {
    Seq::new(names.len(), |i: int| unquoted(names[i]))
}

/// What the mentions and the edges of a DOT text come to: the names of the
/// nodes, in order and without their quotes, or the reason why there is no
/// graph. The mentions are judged first, then the ends of the edges, then
/// the quotes, and last whether the names are still different.
pub open spec fn outcome_of(mentions: Seq<Mention>, edges: Seq<(String, String)>) -> Result<
    Seq<Seq<char>>,
    DotError,
> {
    match order_of(mentions) {
        Err(e) => Err(e),
        Ok(names) => if exists|k: int|
            0 <= k < edges.len() && !#[trigger] known_ends(names, edges, k) {
            Err(DotError::StrayEdge)
        } else if exists|i: int| 0 <= i < names.len() && #[trigger] unquoted(names[i]) == names[i] {
            Err(DotError::UnquotedId)
        } else if !distinct(all_unquoted(names)) {
            Err(DotError::RepeatedId)
        } else {
            Ok(all_unquoted(names))
        },
    }
}

/// Whether no name occurs twice in a list.
fn all_different(names: &Vec<String>) -> (b: bool)
    ensures
        b == distinct(label_texts(names@)),
{
    let ghost texts = label_texts(names@);
    for j in 0..names.len()
        invariant
            texts == label_texts(names@),
            forall|p: int, q: int| 0 <= p < q < j ==> texts[p] != texts[q],
    {
        for i in 0..j
            invariant
                j < names.len(),
                texts == label_texts(names@),
                forall|p: int| 0 <= p < i ==> texts[p] != texts[j as int],
        {
            if names[i] == names[j] {
                assert(texts[i as int] == texts[j as int]);
                return false;
            }
        }
    }
    true
}

impl Graph<String> {
    /// The graph of a DOT text, from what its statements mention and the
    /// edges they come to. The nodes are numbered in the order in which they
    /// should appear and named by their ids without the quotes; every edge
    /// leads from its tail to its head.
    pub fn from_dot(mentions: &Vec<Mention>, edges: &Vec<(String, String)>) -> (r: Result<
        Graph<String>,
        DotError,
    >)
        ensures
            match outcome_of(mentions@, edges@) {
                Err(e) => r matches Err(x) && x == e,
                Ok(names) => r matches Ok(g) && g.labels() == names && g.edges().len()
                    == names.len() && forall|i: int, c: int|
                    0 <= i < names.len() ==> (#[trigger] edge(g.edges(), i, c) <==> 0 <= c
                        < names.len() && joins(
                        edges@,
                        order_of(mentions@)->Ok_0[i],
                        order_of(mentions@)->Ok_0[c],
                    )),
            },
    {
        let ids = match nodes_in_order(mentions) {
            Ok(ids) => ids,
            Err(e) => {
                return Err(e);
            },
        };
        let ghost names = label_texts(ids@);
        proof {
            crate::meeting::lemma_first_occurrences(
                named_at_once(mentions@) + named_later(mentions@),
            );
        }
        let rows = match heads(&ids, edges) {
            Ok(rows) => rows,
            Err(e) => {
                return Err(e);
            },
        };
        let mut labels: Vec<String> = Vec::new();
        for i in 0..ids.len()
            invariant
                names == label_texts(ids@),
                order_of(mentions@) == Ok::<Seq<Seq<char>>, DotError>(names),
                forall|k: int| 0 <= k < edges.len() ==> known_ends(names, edges@, k),
                labels.len() == i,
                forall|k: int| 0 <= k < i ==> #[trigger] unquoted(names[k]) != names[k],
                forall|k: int| 0 <= k < i ==> (#[trigger] labels[k])@ == unquoted(names[k]),
        {
            let label = unquote(&ids[i]);
            if label == ids[i] {
                assert(unquoted(names[i as int]) == names[i as int]);
                return Err(DotError::UnquotedId);
            }
            labels.push(label);
        }
        assert(label_texts(labels@) =~= all_unquoted(names));
        if !all_different(&labels) {
            return Err(DotError::RepeatedId);
        }
        let g = Graph::from_normalized(labels, rows);
        proof {
            assert forall|i: int, c: int| 0 <= i < names.len() implies (#[trigger] edge(
                g.edges(),
                i,
                c,
            ) <==> 0 <= c < names.len() && joins(edges@, names[i], names[c])) by {
                assert(edge(g.edges(), i, c) <==> listed(rows[i]@, c));
            }
        }
        Ok(g)
    }
}

/// The line of a DOT text for the edge from `tail` to `head`.
pub open spec fn edge_line(tail: Seq<char>, head: Seq<char>) -> Seq<char> {
    "  \""@ + tail + "\" -> \""@ + head + "\";\n"@
}

/// The lines for the edges from `tail` to the first `k` of `heads`.
pub open spec fn edge_lines(tail: Seq<char>, heads: Seq<Seq<char>>, k: int) -> Seq<char>
    decreases k,
{
    if k <= 0 {
        Seq::empty()
    } else {
        edge_lines(tail, heads, k - 1) + edge_line(tail, heads[k - 1])
    }
}

/// The lines for the edges from the first `n` nodes of a graph.
pub open spec fn graph_lines<T: Label>(g: Graph<T>, n: int) -> Seq<char>
    decreases n,
{
    if n <= 0 {
        Seq::empty()
    } else {
        graph_lines(g, n - 1) + edge_lines(
            g.labels()[n - 1],
            g.successor_labels(n - 1),
            g.successor_labels(n - 1).len() as int,
        )
    }
}

/// The DOT text of a graph: a directed graph with one line for each edge,
/// node by node, and under each node successor by successor.
pub open spec fn dot_text<T: Label>(g: Graph<T>) -> Seq<char> {
    "digraph {\n"@ + graph_lines(g, g.labels().len() as int) + "}\n"@
}

impl<T: Label> Graph<T> {
    /// Writes the graph as a DOT text. Only the edges are written: a node
    /// without edges does not appear.
    pub fn to_dot(&self) -> (output: String)
        ensures
            output@ == dot_text(*self),
    {
        let heads = self.heads();
        let n = heads.len();
        let mut output = String::from_str("digraph {\n");
        let ghost start = output@;
        assert(output@ =~= start + graph_lines(*self, 0));
        for i in 0..n
            invariant
                n == heads.len(),
                n == self.labels().len(),
                forall|k: int| 0 <= k < n ==> (#[trigger] heads[k]).0.text() == self.labels()[k],
                forall|k: int|
                    0 <= k < n ==> borrowed_texts((#[trigger] heads[k]).1@)
                        == self.successor_labels(k),
                output@ == start + graph_lines(*self, i as int),
        {
            let ghost done = output@;
            let tail = heads[i].0.print();
            let successors = &heads[i].1;
            let ghost names = self.successor_labels(i as int);
            assert(output@ =~= done + edge_lines(tail@, names, 0));
            for k in 0..successors.len()
                invariant
                    tail@ == self.labels()[i as int],
                    names == borrowed_texts(successors@),
                    output@ == done + edge_lines(tail@, names, k as int),
            {
                let ghost before = output@;
                let head = successors[k].print();
                assert(head@ == names[k as int]);
                output.append("  \"");
                output.append(tail.as_str());
                output.append("\" -> \"");
                output.append(head.as_str());
                output.append("\";\n");
                assert(output@ =~= before + edge_line(tail@, head@));
                assert(output@ =~= done + edge_lines(tail@, names, k as int + 1));
            }
            assert(output@ =~= start + graph_lines(*self, i as int + 1));
        }
        let ghost lines = output@;
        output.append("}\n");
        assert(output@ =~= dot_text(*self));
        output
    }
}

} // verus!
