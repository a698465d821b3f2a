//! Directed graphs over labelled nodes.
//!
//! A graph numbers its nodes in the order in which it met them and keeps,
//! for each node, the numbers of its direct successors: a set, held as a
//! strictly ascending list.

use crate::glyphs::texts;
use crate::label::Label;
use crate::meeting::{
    first_occurrences, heads_of, joined, lemma_first_occurrences,
    lemma_first_occurrences_of_distinct, lemma_first_occurrences_push, lemma_heads_of_push,
    lemma_heads_of_holds, lemma_heads_of_stranger, lemma_joined_heads, lemma_joined_push,
    listed_for, met_in_order, tails_of, Entry,
};
use crate::normalize::{ascending, closed_under, renumbered, sorted};
use crate::rendering::{formatted, outcome, renders, RenderError};
use crate::table::{edge, listed, lists, same_entries, successors};
use vstd::prelude::*;

verus! {

/// A directed graph over nodes labelled by `T`.
pub struct Graph<T: Label> {
    nodes: Vec<T>,
    heads: Vec<Vec<usize>>,
}

/// The texts of a list of labels.
pub open spec fn label_texts<T: Label>(labels: Seq<T>) -> Seq<Seq<char>> {
    Seq::new(labels.len(), |i: int| labels[i].text())
}

/// The texts of a list of borrowed labels.
pub open spec fn borrowed_texts<T: Label>(labels: Seq<&T>) -> Seq<Seq<char>> {
    Seq::new(labels.len(), |i: int| labels[i].text())
}

/// No text occurs twice.
pub open spec fn distinct(names: Seq<Seq<char>>) -> bool {
    forall|i: int, j: int| 0 <= i < j < names.len() ==> names[i] != names[j]
}

/// A list in strictly ascending order.
pub open spec fn strictly_ascending(list: Seq<usize>) -> bool {
    forall|i: int, j: int| 0 <= i < j < list.len() ==> list[i] < list[j]
}

/// The number of the node called `name`.
pub open spec fn number_of(names: Seq<Seq<char>>, name: Seq<char>) -> usize {
    choose|j: usize| j < names.len() && names[j as int] == name
}

/// The node numbers of a list of names.
pub open spec fn numbers_of(names: Seq<Seq<char>>, order: Seq<Seq<char>>) -> Seq<usize> {
    Seq::new(order.len(), |i: int| number_of(names, order[i]))
}

/// `order` names every node of `names` exactly once.
pub open spec fn arrangement(names: Seq<Seq<char>>, order: Seq<Seq<char>>) -> bool {
    &&& order.len() == names.len()
    &&& distinct(order)
    &&& forall|i: int| 0 <= i < order.len() ==> names.contains(#[trigger] order[i])
}

/// The successor sets of a table with `n` rows, the rows it lacks being
/// empty.
pub open spec fn padded(s: Seq<Set<int>>, n: nat) -> Seq<Set<int>> {
    Seq::new(
        n,
        |i: int|
            if i < s.len() {
                s[i]
            } else {
                Set::empty()
            },
    )
}

/// The rows strictly above `rows` of which `c` is a direct successor, in
/// ascending order.
pub open spec fn predecessors_below(s: Seq<Set<int>>, c: int, rows: int) -> Seq<int>
    decreases rows,
{
    if rows <= 0 {
        Seq::empty()
    } else if edge(s, rows - 1, c) {
        predecessors_below(s, c, rows - 1).push(rows - 1)
    } else {
        predecessors_below(s, c, rows - 1)
    }
}

/// The predecessors found strictly above `rows` are rows above `rows`.
pub proof fn lemma_predecessors_in_range(s: Seq<Set<int>>, c: int, rows: int)
    ensures
        forall|q: int|
            0 <= q < predecessors_below(s, c, rows).len() ==> {
                &&& 0 <= #[trigger] predecessors_below(s, c, rows)[q]
                &&& predecessors_below(s, c, rows)[q] < rows
            },
    decreases rows,
{
    if rows > 0 {
        lemma_predecessors_in_range(s, c, rows - 1);
        let above = predecessors_below(s, c, rows - 1);
        let all = predecessors_below(s, c, rows);
        assert forall|q: int| 0 <= q < all.len() implies 0 <= #[trigger] all[q] && all[q]
            < rows by {
            if q < above.len() {
                assert(all[q] == above[q]);
            }
        }
    }
}

/// The direct predecessors of node `c`, in ascending order.
pub open spec fn predecessors(s: Seq<Set<int>>, c: int) -> Seq<int> {
    predecessors_below(s, c, s.len() as int)
}

/// A list of entries as plain text.
pub open spec fn entry_texts<T: Label>(entries: Seq<(T, Vec<T>)>) -> Seq<Entry> {
    Seq::new(entries.len(), |i: int| (entries[i].0.text(), label_texts(entries[i].1@)))
}

/// A list of edges as entries in plain text: each tail with its one head.
pub open spec fn edge_texts<T: Label>(edges: Seq<(T, T)>) -> Seq<Entry> {
    Seq::new(edges.len(), |i: int| (edges[i].0.text(), seq![edges[i].1.text()]))
}

/// `longer` starts with `shorter`.
pub open spec fn starts_with(longer: Seq<Seq<char>>, shorter: Seq<Seq<char>>) -> bool {
    &&& shorter.len() <= longer.len()
    &&& forall|i: int| 0 <= i < shorter.len() ==> longer[i] == shorter[i]
}

/// The number of the node that `node` names among `nodes`, which it joins
/// as the last if it names none of them.
pub(crate) fn normalize<T: Label>(nodes: &mut Vec<T>, node: T) -> (i: usize)
    requires
        distinct(label_texts(old(nodes)@)),
    ensures
        label_texts(final(nodes)@) == if label_texts(old(nodes)@).contains(node.text()) {
            label_texts(old(nodes)@)
        } else {
            label_texts(old(nodes)@).push(node.text())
        },
        distinct(label_texts(final(nodes)@)),
        starts_with(label_texts(final(nodes)@), label_texts(old(nodes)@)),
        i < final(nodes).len(),
        label_texts(final(nodes)@)[i as int] == node.text(),
        i == old(nodes).len() <==> !label_texts(old(nodes)@).contains(node.text()),
{
    let ghost before = label_texts(nodes@);
    for j in 0..nodes.len()
        invariant
            nodes@ == old(nodes)@,
            before == label_texts(nodes@),
            distinct(before),
            forall|k: int| 0 <= k < j ==> before[k] != node.text(),
    {
        if nodes[j].same(&node) {
            assert(before[j as int] == node.text());
            return j;
        }
    }
    let i = nodes.len();
    let ghost name = node.text();
    nodes.push(node);
    assert(label_texts(nodes@) =~= before.push(name));
    i
}

/// Where `label` stands in a list of labels, if it does.
pub fn place<T: Label>(labels: &Vec<T>, label: &T) -> (r: Option<usize>)
    ensures
        match r {
            Some(j) => j < labels.len() && labels[j as int].text() == label.text(),
            None => !label_texts(labels@).contains(label.text()),
        },
{
    for j in 0..labels.len()
        invariant
            forall|k: int| 0 <= k < j ==> label_texts(labels@)[k] != label.text(),
    {
        if labels[j].same(label) {
            return Some(j);
        }
    }
    None
}

/// Adds `more` at the end of row `i`.
fn extend_row<T: Label>(rows: &mut Vec<Vec<T>>, i: usize, more: Vec<T>)
    requires
        i < old(rows).len(),
    ensures
        final(rows).len() == old(rows).len(),
        final(rows)[i as int]@ == old(rows)[i as int]@ + more@,
        forall|j: int| 0 <= j < old(rows).len() && j != i ==> final(rows)[j] == old(rows)[j],
{
    for h in it: more
        invariant
            i < rows.len(),
            rows.len() == old(rows).len(),
            it.seq() == more@,
            rows[i as int]@ == old(rows)[i as int]@ + more@.take(it.index() as int),
            forall|j: int| 0 <= j < old(rows).len() && j != i ==> rows[j] == old(rows)[j],
    {
        let ghost k = it.index() as int;
        let ghost so_far = rows[i as int]@;
        rows[i].push(h);
        assert(rows[i as int]@ =~= old(rows)[i as int]@ + more@.take(k + 1)) by {
            assert(more@.take(k + 1) =~= more@.take(k).push(more@[k]));
        }
    }
    assert(more@.take(more@.len() as int) =~= more@);
}

/// The texts of a list of lists of labels.
pub open spec fn list_texts<T: Label>(lists: Seq<Vec<T>>) -> Seq<Seq<Seq<char>>> {
    Seq::new(lists.len(), |i: int| label_texts(lists[i]@))
}

/// Numbers the tails of a list of entries in the order of the list and
/// gathers, for each tail, the heads that the entries list for it.
fn gather<T: Label>(heads: Vec<(T, Vec<T>)>) -> (r: (Vec<T>, Vec<Vec<T>>))
    ensures
        label_texts(r.0@) == first_occurrences(tails_of(entry_texts(heads@))),
        distinct(label_texts(r.0@)),
        r.1.len() == r.0.len(),
        forall|i: int|
            0 <= i < r.0.len() ==> label_texts(#[trigger] r.1[i]@) == heads_of(
                entry_texts(heads@),
                label_texts(r.0@)[i],
            ),
{
    let ghost entries = entry_texts(heads@);
    let mut nodes: Vec<T> = Vec::new();
    let mut deferred: Vec<Vec<T>> = Vec::new();
    assert(tails_of(entries.take(0)) =~= Seq::<Seq<char>>::empty());
    for entry in it: heads
        invariant
            it.seq() == heads@,
            entries == entry_texts(heads@),
            label_texts(nodes@) == first_occurrences(tails_of(entries.take(it.index() as int))),
            distinct(label_texts(nodes@)),
            deferred.len() == nodes.len(),
            forall|i: int|
                0 <= i < nodes.len() ==> label_texts(#[trigger] deferred[i]@) == heads_of(
                    entries.take(it.index() as int),
                    label_texts(nodes@)[i],
                ),
    {
        let ghost at = it.index() as int;
        let ghost seen = entries.take(at);
        let ghost names = label_texts(nodes@);
        let ghost lists = deferred@;
        let (t, hs) = entry;
        let ghost tail = t.text();
        let ghost more = label_texts(hs@);
        proof {
            assert(entries[at] == (tail, more));
            assert(entries.take(at + 1) =~= seen.push(entries[at]));
            assert(tails_of(entries.take(at + 1)) =~= tails_of(seen).push(tail));
            lemma_first_occurrences_push(tails_of(seen), tail);
            lemma_first_occurrences(tails_of(seen));
            if !names.contains(tail) {
                lemma_heads_of_stranger(seen, tail);
            }
        }
        let i = normalize(&mut nodes, t);
        if i == deferred.len() {
            deferred.push(hs);
            assert(label_texts(deferred[i as int]@) =~= Seq::<Seq<char>>::empty() + more);
        } else {
            extend_row(&mut deferred, i, hs);
            assert(label_texts(deferred[i as int]@) =~= label_texts(lists[i as int]@) + more);
        }
        proof {
            let now = label_texts(nodes@);
            assert forall|k: int| 0 <= k < nodes.len() implies label_texts(
                #[trigger] deferred[k]@,
            ) == heads_of(entries.take(at + 1), now[k]) by {
                lemma_heads_of_push(seen, entries[at], now[k]);
                if k != i {
                    assert(now[k] != now[i as int]);
                    assert(deferred[k] == lists[k]);
                    assert(now[k] == names[k]);
                }
            }
        }
    }
    assert(entries.take(heads@.len() as int) =~= entries);
    (nodes, deferred)
}

/// Numbers the heads gathered for each tail, tail by tail: a head that names
/// no node yet joins the nodes as the last.
fn number_heads<T: Label>(nodes: Vec<T>, deferred: Vec<Vec<T>>) -> (r: (Vec<T>, Vec<Vec<usize>>))
    requires
        distinct(label_texts(nodes@)),
        deferred.len() == nodes.len(),
    ensures
        label_texts(r.0@) == first_occurrences(
            label_texts(nodes@) + joined(list_texts(deferred@)),
        ),
        distinct(label_texts(r.0@)),
        starts_with(label_texts(r.0@), label_texts(nodes@)),
        r.1.len() == deferred.len(),
        forall|t: int|
            0 <= t < r.1.len() ==> (#[trigger] r.1[t]@).len() == deferred[t]@.len(),
        forall|t: int, k: int|
            0 <= t < r.1.len() && 0 <= k < r.1[t]@.len() ==> {
                &&& (#[trigger] r.1[t]@[k]) < r.0.len()
                &&& label_texts(r.0@)[r.1[t]@[k] as int] == deferred[t]@[k].text()
            },
{
    let ghost keys = label_texts(nodes@);
    let ghost lists = list_texts(deferred@);
    let mut nodes = nodes;
    let mut rows: Vec<Vec<usize>> = Vec::new();
    proof {
        lemma_first_occurrences_of_distinct(keys);
        assert(lists.take(0) =~= Seq::<Seq<Seq<char>>>::empty());
        assert(keys + joined(lists.take(0)) =~= keys);
    }
    for hs in it: deferred
        invariant
            it.seq() == deferred@,
            lists == list_texts(deferred@),
            label_texts(nodes@) == first_occurrences(keys + joined(lists.take(it.index() as int))),
            distinct(label_texts(nodes@)),
            starts_with(label_texts(nodes@), keys),
            rows.len() == it.index(),
            forall|t: int| 0 <= t < rows.len() ==> (#[trigger] rows[t]@).len() == deferred[t]@.len(),
            forall|t: int, k: int|
                0 <= t < rows.len() && 0 <= k < rows[t]@.len() ==> {
                    &&& (#[trigger] rows[t]@[k]) < nodes.len()
                    &&& label_texts(nodes@)[rows[t]@[k] as int] == deferred[t]@[k].text()
                },
    {
        let ghost at = it.index() as int;
        let ghost done = keys + joined(lists.take(at));
        let ghost list = label_texts(hs@);
        let ghost given = hs@;
        let ghost base = label_texts(nodes@);
        let mut row: Vec<usize> = Vec::new();
        proof {
            assert(list == lists[at]);
            assert(done + list.take(0) =~= done);
        }
        for h in it2: hs
            invariant
                it2.seq() == given,
                list == label_texts(given),
                label_texts(nodes@) == first_occurrences(done + list.take(it2.index() as int)),
                distinct(label_texts(nodes@)),
                starts_with(label_texts(nodes@), base),
                row.len() == it2.index(),
                forall|k: int|
                    0 <= k < row.len() ==> {
                        &&& (#[trigger] row[k]) < nodes.len()
                        &&& label_texts(nodes@)[row[k] as int] == list[k]
                    },
        {
            let ghost k = it2.index() as int;
            let ghost before = label_texts(nodes@);
            proof {
                assert(list[k] == h.text());
                assert(done + list.take(k + 1) =~= (done + list.take(k)).push(list[k]));
                lemma_first_occurrences_push(done + list.take(k), list[k]);
            }
            let j = normalize(&mut nodes, h);
            row.push(j);
        }
        proof {
            assert(list.take(list.len() as int) =~= list);
            assert(lists.take(at + 1) =~= lists.take(at).push(list));
            lemma_joined_push(lists.take(at), list);
            assert(keys + joined(lists.take(at + 1)) =~= done + list);
        }
        rows.push(row);
    }
    assert(lists.take(lists.len() as int) =~= lists);
    (nodes, rows)
}

/// Drops the repeats from an ascending list.
fn without_repeats(list: Vec<usize>) -> (r: Vec<usize>)
    requires
        ascending(list@),
    ensures
        strictly_ascending(r@),
        same_entries(r@, list@),
{
    let mut r: Vec<usize> = Vec::new();
    for k in 0..list.len()
        invariant
            ascending(list@),
            strictly_ascending(r@),
            same_entries(r@, list@.take(k as int)),
            r.len() > 0 ==> k > 0 && r[r.len() - 1] == list[k - 1],
    {
        let x = list[k];
        let ghost before = r@;
        let ghost seen = list@.take(k as int);
        let ghost now = list@.take(k as int + 1);
        if k == 0 || list[k - 1] != x {
            r.push(x);
            assert forall|c: int| listed(r@, c) <==> listed(now, c) by {
                if listed(r@, c) {
                    let q = choose|q: int| 0 <= q < r@.len() && r@[q] == c;
                    if q < before.len() {
                        assert(listed(before, c));
                        let p = choose|p: int| 0 <= p < seen.len() && seen[p] == c;
                        assert(now[p] == c);
                    } else {
                        assert(now[k as int] == c);
                    }
                }
                if listed(now, c) {
                    let p = choose|p: int| 0 <= p < now.len() && now[p] == c;
                    if p < k {
                        assert(seen[p] == c);
                        assert(listed(before, c));
                        let q = choose|q: int| 0 <= q < before.len() && before[q] == c;
                        assert(r@[q] == c);
                    } else {
                        assert(r@[before.len() as int] == c);
                    }
                }
            }
        } else {
            assert forall|c: int| listed(r@, c) <==> listed(now, c) by {
                if listed(r@, c) {
                    let p = choose|p: int| 0 <= p < seen.len() && seen[p] == c;
                    assert(now[p] == c);
                }
                if listed(now, c) {
                    let p = choose|p: int| 0 <= p < now.len() && now[p] == c;
                    if p < k {
                        assert(seen[p] == c);
                    } else {
                        assert(seen[k - 1] == c);
                    }
                }
            }
        }
    }
    assert(list@.take(list.len() as int) =~= list@);
    r
}

impl<T: Label> Graph<T> {
    #[verifier::type_invariant]
    closed spec fn well_formed(self) -> bool {
        &&& self.heads.len() == self.nodes.len()
        &&& distinct(label_texts(self.nodes@))
        &&& closed_under(self.heads@, self.nodes@.len())
        &&& forall|i: int| 0 <= i < self.heads.len() ==> strictly_ascending(#[trigger] self.heads[i]@)
    }

    /// The texts of the node labels, by node number.
    pub closed spec fn labels(self) -> Seq<Seq<char>> {
        label_texts(self.nodes@)
    }

    /// The direct successors of each node, by node number.
    pub closed spec fn edges(self) -> Seq<Set<int>> {
        successors(self.heads@)
    }

    /// The direct successors of node `i` in ascending order.
    pub closed spec fn successor_list(self, i: int) -> Seq<usize> {
        self.heads[i]@
    }

    /// The labels of the direct successors of node `i`, in ascending order
    /// of their numbers.
    pub open spec fn successor_labels(self, i: int) -> Seq<Seq<char>> {
        Seq::new(
            self.successor_list(i).len(),
            |k: int| self.labels()[self.successor_list(i)[k] as int],
        )
    }

    /// The labels of the direct predecessors of node `i`, in ascending order
    /// of their numbers.
    pub open spec fn predecessor_labels(self, i: int) -> Seq<Seq<char>> {
        Seq::new(
            predecessors(self.edges(), i).len(),
            |k: int| self.labels()[predecessors(self.edges(), i)[k]],
        )
    }

    /// The graph with the nodes `nodes`, numbered as they stand, and the
    /// successors that `heads` lists for each node number. A row may list a
    /// successor more than once and in any order; a node without a row has no
    /// successors.
    pub fn from_normalized(nodes: Vec<T>, heads: Vec<Vec<usize>>) -> (g: Self)
        requires
            distinct(label_texts(nodes@)),
            heads.len() <= nodes.len(),
            closed_under(heads@, nodes@.len()),
        ensures
            g.labels() == label_texts(nodes@),
            g.edges() == padded(successors(heads@), nodes@.len()),
    {
        let n = nodes.len();
        let given = heads.len();
        let mut rows: Vec<Vec<usize>> = Vec::new();
        for row in it: heads
            invariant
                n == nodes.len(),
                given == heads.len(),
                given <= n,
                it.seq() == heads@,
                closed_under(heads@, nodes@.len()),
                rows.len() == it.index(),
                closed_under(rows@, nodes@.len()),
                forall|i: int| 0 <= i < rows.len() ==> strictly_ascending(#[trigger] rows[i]@),
                forall|i: int|
                    0 <= i < rows.len() ==> same_entries(#[trigger] rows[i]@, heads[i]@),
        {
            let ghost i = rows.len() as int;
            let ghost raw = row@;
            assert(raw == heads[i]@);
            let row = sorted(row);
            proof {
                broadcast use vstd::seq_lib::to_multiset_contains;

                assert forall|c: usize| listed(row@, c as int) <==> listed(raw, c as int) by {
                    if listed(row@, c as int) {
                        let q = choose|q: int| 0 <= q < row@.len() && row@[q] == c;
                        assert(row@.contains(row@[q]));
                        assert(row@.to_multiset().count(c) > 0);
                        assert(raw.to_multiset().count(c) > 0);
                        assert(raw.contains(c));
                    }
                    if listed(raw, c as int) {
                        let q = choose|q: int| 0 <= q < raw.len() && raw[q] == c;
                        assert(raw.contains(raw[q]));
                        assert(raw.to_multiset().count(c) > 0);
                        assert(row@.to_multiset().count(c) > 0);
                        assert(row@.contains(c));
                    }
                }
            }
            let ghost ordered = row@;
            let row = without_repeats(row);
            proof {
                assert forall|c: int| listed(row@, c) <==> listed(raw, c) by {
                    assert(same_entries(row@, ordered));
                    assert(listed(row@, c) <==> listed(ordered, c));
                    if listed(ordered, c) {
                        let q = choose|q: int| 0 <= q < ordered.len() && ordered[q] == c;
                        assert(listed(ordered, ordered[q] as int));
                    }
                    if listed(raw, c) {
                        let q = choose|q: int| 0 <= q < raw.len() && raw[q] == c;
                        assert(listed(raw, raw[q] as int));
                    }
                }
                assert(same_entries(row@, raw));
                assert forall|k: int| 0 <= k < row@.len() implies #[trigger] row@[k] < n by {
                    let c = row@[k] as int;
                    assert(listed(row@, c));
                    assert(listed(raw, c));
                    let q = choose|q: int| 0 <= q < raw.len() && raw[q] == c;
                    assert(heads[i]@[q] < n);
                }
            }
            rows.push(row);
        }
        for i in given..n
            invariant
                n == nodes.len(),
                given == heads.len(),
                given <= n,
                rows.len() == i,
                closed_under(rows@, nodes@.len()),
                forall|i: int| 0 <= i < rows.len() ==> strictly_ascending(#[trigger] rows[i]@),
                forall|i: int| 0 <= i < given ==> same_entries(#[trigger] rows[i]@, heads[i]@),
                forall|i: int| given <= i < rows.len() ==> (#[trigger] rows[i]@).len() == 0,
        {
            rows.push(Vec::new());
        }
        proof {
            let want = padded(successors(heads@), nodes@.len());
            assert forall|i: int| 0 <= i < n implies successors(rows@)[i] =~= want[i] by {
                assert forall|c: int| successors(rows@)[i].contains(c) <==> want[i].contains(
                    c,
                ) by {
                    if i < given {
                        assert(same_entries(rows[i]@, heads[i]@));
                    } else {
                        assert(rows[i]@.len() == 0);
                    }
                }
            }
            assert(successors(rows@) =~= want);
        }
        Graph { nodes, heads: rows }
    }

    /// The graph of a list of entries, each a tail with the heads listed for
    /// it. The nodes are numbered as they are met: the tails in the order of
    /// the list, then, tail by tail, the heads listed for it. A head is a
    /// direct successor of the tail it is listed for.
    pub fn from_heads(heads: Vec<(T, Vec<T>)>) -> (g: Self)
        ensures
            g.labels() == met_in_order(entry_texts(heads@)),
            g.edges().len() == g.labels().len(),
            forall|i: int, c: int|
                0 <= i < g.labels().len() ==> (#[trigger] edge(g.edges(), i, c) <==> 0 <= c
                    < g.labels().len() && listed_for(
                    entry_texts(heads@),
                    g.labels()[i],
                    g.labels()[c],
                )),
    {
        let ghost entries = entry_texts(heads@);
        let (tails, deferred) = gather(heads);
        let ghost keys = label_texts(tails@);
        let ghost lists = list_texts(deferred@);
        let (nodes, rows) = number_heads(tails, deferred);
        let ghost names = label_texts(nodes@);
        proof {
            lemma_joined_heads(entries, keys, lists);
            assert forall|t: int, k: int|
                0 <= t < rows.len() && 0 <= k < rows[t]@.len() implies #[trigger] rows[t]@[k]
                < nodes@.len() by {}
        }
        let g = Self::from_normalized(nodes, rows);
        proof {
            let n = names.len() as int;
            assert forall|i: int, c: int| 0 <= i < n implies (#[trigger] edge(g.edges(), i, c)
                <==> 0 <= c < n && listed_for(entries, names[i], names[c])) by {
                lemma_heads_of_holds(entries, names[i], names[c]);
                let listed_for = heads_of(entries, names[i]);
                if i < keys.len() {
                    assert(names[i] == keys[i]);
                    assert(listed_for == lists[i]);
                    assert(lists[i].len() == rows[i]@.len());
                    if edge(g.edges(), i, c) {
                        let k = choose|k: int| 0 <= k < rows[i]@.len() && rows[i]@[k] == c;
                        assert(rows[i]@[k] < nodes.len());
                        assert(names[c] == deferred[i]@[k].text());
                        assert(listed_for[k] == names[c]);
                    }
                    if 0 <= c < n && listed_for.contains(names[c]) {
                        let k = choose|k: int| 0 <= k < listed_for.len() && listed_for[k] == names[c];
                        let j = rows[i]@[k];
                        assert(j < nodes.len());
                        assert(names[j as int] == deferred[i]@[k].text());
                        assert(j == c);
                        assert(listed(rows[i]@, c));
                    }
                } else {
                    lemma_first_occurrences(tails_of(entries));
                    if tails_of(entries).contains(names[i]) {
                        assert(keys.contains(names[i]));
                        let k = choose|k: int| 0 <= k < keys.len() && keys[k] == names[i];
                        assert(names[k] == keys[k]);
                    }
                    lemma_heads_of_stranger(entries, names[i]);
                }
            }
        }
        g
    }

    /// The graph of a list of edges, each a tail and a head: the graph of
    /// the entries that list for each tail its one head.
    pub fn from_edges(edges: Vec<(T, T)>) -> (g: Self)
        ensures
            g.labels() == met_in_order(edge_texts(edges@)),
            g.edges().len() == g.labels().len(),
            forall|i: int, c: int|
                0 <= i < g.labels().len() ==> (#[trigger] edge(g.edges(), i, c) <==> 0 <= c
                    < g.labels().len() && listed_for(
                    edge_texts(edges@),
                    g.labels()[i],
                    g.labels()[c],
                )),
    {
        let mut heads: Vec<(T, Vec<T>)> = Vec::new();
        for edge in it: edges
            invariant
                it.seq() == edges@,
                heads.len() == it.index(),
                entry_texts(heads@) == edge_texts(edges@.take(it.index() as int)),
        {
            let ghost at = it.index() as int;
            let ghost before = entry_texts(heads@);
            let (t, h) = edge;
            let mut hs: Vec<T> = Vec::new();
            hs.push(h);
            heads.push((t, hs));
            proof {
                assert(label_texts(hs@) =~= seq![h.text()]);
                assert(entry_texts(heads@) =~= before.push((t.text(), seq![h.text()])));
                assert(edge_texts(edges@.take(at + 1)) =~= edge_texts(edges@.take(at)).push(
                    (t.text(), seq![h.text()]),
                ));
            }
        }
        assert(edges@.take(edges@.len() as int) =~= edges@);
        Self::from_heads(heads)
    }

    /// The number of nodes.
    pub fn len(&self) -> (n: usize)
        ensures
            n == self.labels().len(),
    {
        self.nodes.len()
    }

    /// The labels of the nodes, by node number.
    pub fn nodes(&self) -> (r: Vec<&T>)
        ensures
            borrowed_texts(r@) == self.labels(),
            distinct(self.labels()),
    {
        proof {
            use_type_invariant(self);
        }
        let mut r: Vec<&T> = Vec::new();
        for i in 0..self.nodes.len()
            invariant
                r.len() == i,
                forall|k: int| 0 <= k < i ==> *r[k] == self.nodes[k],
        {
            r.push(&self.nodes[i]);
        }
        assert(borrowed_texts(r@) =~= self.labels());
        r
    }

    /// The number of the node that `label` names, if there is one.
    pub fn find(&self, label: &T) -> (r: Option<usize>)
        ensures
            match r {
                Some(j) => j < self.labels().len() && self.labels()[j as int] == label.text(),
                None => !self.labels().contains(label.text()),
            },
    {
        place(&self.nodes, label)
    }

    /// Each node with its direct successors, by node number; the successors
    /// of a node stand in ascending order of their numbers.
    pub fn heads(&self) -> (r: Vec<(&T, Vec<&T>)>)
        ensures
            r.len() == self.labels().len(),
            forall|i: int| 0 <= i < r.len() ==> (#[trigger] r[i]).0.text() == self.labels()[i],
            forall|i: int|
                0 <= i < r.len() ==> borrowed_texts((#[trigger] r[i]).1@) == self.successor_labels(
                    i,
                ),
            forall|i: int|
                0 <= i < r.len() ==> strictly_ascending(#[trigger] self.successor_list(i)),
            forall|i: int, c: int|
                0 <= i < r.len() ==> (#[trigger] listed(self.successor_list(i), c) <==> edge(
                    self.edges(),
                    i,
                    c,
                )),
    {
        proof {
            use_type_invariant(self);
        }
        let n = self.nodes.len();
        let mut heads: Vec<(&T, Vec<&T>)> = Vec::new();
        for t in 0..n
            invariant
                n == self.nodes.len(),
                n == self.heads.len(),
                closed_under(self.heads@, self.nodes@.len()),
                heads.len() == t,
                forall|i: int| 0 <= i < t ==> *(#[trigger] heads[i]).0 == self.nodes[i],
                forall|i: int|
                    0 <= i < t ==> borrowed_texts((#[trigger] heads[i]).1@) == Seq::new(
                        self.successor_list(i).len(),
                        |k: int| self.labels()[self.successor_list(i)[k] as int],
                    ),
        {
            let hs = &self.heads[t];
            let mut found: Vec<&T> = Vec::new();
            for k in 0..hs.len()
                invariant
                    t < n,
                    n == self.nodes.len(),
                    n == self.heads.len(),
                    closed_under(self.heads@, self.nodes@.len()),
                    hs == &self.heads[t as int],
                    found.len() == k,
                    forall|q: int| 0 <= q < k ==> *(#[trigger] found[q]) == self.nodes[hs[q] as int],
            {
                let h = hs[k];
                found.push(&self.nodes[h]);
            }
            assert(borrowed_texts(found@) =~= Seq::new(
                self.successor_list(t as int).len(),
                |k: int| self.labels()[self.successor_list(t as int)[k] as int],
            ));
            heads.push((&self.nodes[t], found));
        }
        heads
    }

    /// Each node with its direct predecessors, by node number; the
    /// predecessors of a node stand in ascending order of their numbers.
    pub fn tails(&self) -> (r: Vec<(&T, Vec<&T>)>)
        ensures
            r.len() == self.labels().len(),
            forall|i: int| 0 <= i < r.len() ==> (#[trigger] r[i]).0.text() == self.labels()[i],
            forall|i: int|
                0 <= i < r.len() ==> borrowed_texts((#[trigger] r[i]).1@)
                    == self.predecessor_labels(i),
    {
        proof {
            use_type_invariant(self);
        }
        let n = self.nodes.len();
        let ghost s = self.edges();
        let mut tails: Vec<(&T, Vec<&T>)> = Vec::new();
        for h in 0..n
            invariant
                n == self.nodes.len(),
                n == self.heads.len(),
                s == self.edges(),
                s == successors(self.heads@),
                tails.len() == h,
                forall|i: int| 0 <= i < h ==> *(#[trigger] tails[i]).0 == self.nodes[i],
                forall|i: int|
                    0 <= i < h ==> borrowed_texts((#[trigger] tails[i]).1@) == Seq::new(
                        predecessors(s, i).len(),
                        |k: int| self.labels()[predecessors(s, i)[k]],
                    ),
        {
            let mut found: Vec<&T> = Vec::new();
            for t in 0..n
                invariant
                    h < n,
                    n == self.nodes.len(),
                    n == self.heads.len(),
                    s == successors(self.heads@),
                    found.len() == predecessors_below(s, h as int, t as int).len(),
                    forall|q: int|
                        0 <= q < found.len() ==> *(#[trigger] found[q]) == self.nodes[predecessors_below(
                            s,
                            h as int,
                            t as int,
                        )[q]],
            {
                let ghost before = predecessors_below(s, h as int, t as int);
                let ghost after = predecessors_below(s, h as int, t as int + 1);
                proof {
                    lemma_predecessors_in_range(s, h as int, t as int);
                    assert(after == if edge(s, t as int, h as int) {
                        before.push(t as int)
                    } else {
                        before
                    });
                }
                if lists(&self.heads[t], h) {
                    found.push(&self.nodes[t]);
                }
            }
            proof {
                lemma_predecessors_in_range(s, h as int, n as int);
                assert(borrowed_texts(found@) =~= Seq::new(
                    predecessors(s, h as int).len(),
                    |k: int| self.labels()[predecessors(s, h as int)[k]],
                ));
            }
            tails.push((&self.nodes[h], found));
        }
        tails
    }

    /// The number of the node that `label` names.
    fn number(&self, label: &T) -> (j: usize)
        requires
            self.labels().contains(label.text()),
        ensures
            j < self.labels().len(),
            j == number_of(self.labels(), label.text()),
    {
        proof {
            use_type_invariant(self);
        }
        match self.find(label) {
            Some(j) => j,
            None => vstd::pervasive::unreached(),
        }
    }

    /// Renders the graph with its nodes in the order of their numbers.
    pub fn ascii(&self) -> (r: Result<String, RenderError>)
        ensures
            renders(r, outcome(self.edges(), self.labels())),
    {
        proof {
            use_type_invariant(self);
        }
        let order = self.nodes();
        proof {
            let names = self.labels();
            let s = self.edges();
            assert(arrangement(names, names)) by {
                assert forall|i: int| 0 <= i < names.len() implies names.contains(
                    #[trigger] names[i],
                ) by {}
            }
            let numbers = numbers_of(names, names);
            assert forall|i: int| 0 <= i < names.len() implies numbers[i] == i by {
                let w = i as usize;
                assert(w < names.len() && names[w as int] == names[i]);
            }
            assert forall|i: int| 0 <= i < names.len() implies renumbered(s, numbers)[i] =~= s[i] by {
                assert forall|c: int| s[i].contains(c) implies 0 <= c < names.len() by {
                    assert(listed(self.heads[i]@, c));
                }
            }
            assert(renumbered(s, numbers) =~= s);
        }
        self.ascii_with_order(&order)
    }

    /// Renders the graph with its nodes in the given order, which names
    /// every node exactly once: the label at position `i` of `order` stands
    /// on the diagonal of row `i`.
    pub fn ascii_with_order(&self, order: &Vec<&T>) -> (r: Result<String, RenderError>)
        requires
            arrangement(self.labels(), borrowed_texts(order@)),
        ensures
            renders(
                r,
                outcome(
                    renumbered(
                        self.edges(),
                        numbers_of(self.labels(), borrowed_texts(order@)),
                    ),
                    borrowed_texts(order@),
                ),
            ),
    {
        proof {
            use_type_invariant(self);
        }
        let n = order.len();
        let ghost wanted = borrowed_texts(order@);
        let mut numbers: Vec<usize> = Vec::new();
        let mut names: Vec<String> = Vec::new();
        for i in 0..n
            invariant
                n == order.len(),
                n == self.nodes.len(),
                wanted == borrowed_texts(order@),
                arrangement(self.labels(), wanted),
                numbers.len() == i,
                names.len() == i,
                forall|k: int| 0 <= k < i ==> #[trigger] numbers[k] < n,
                forall|k: int|
                    0 <= k < i ==> #[trigger] numbers[k] == number_of(self.labels(), wanted[k]),
                forall|k: int|
                    0 <= k < i ==> self.labels()[#[trigger] numbers[k] as int] == wanted[k],
                forall|k: int| 0 <= k < i ==> (#[trigger] names[k])@ == wanted[k],
        {
            assert(wanted[i as int] == order[i as int].text());
            let node = order[i];
            numbers.push(self.number(node));
            names.push(node.print());
        }
        assert(numbers@ =~= numbers_of(self.labels(), wanted));
        assert(texts(names@) =~= wanted);
        formatted(&self.heads, &numbers, &names)
    }
}

} // verus!
